//! Resharing over ristretto255.
use curve25519_dalek::ristretto::RistrettoPoint;
use curve25519_dalek::scalar::Scalar;
use frostito::reshare::{
    batch_verify_subshares, Aggregator, Dealer, DealerCommitment, ReshareState, SharePolynomial,
    SubShare,
};
use frostito::{compute_lagrange_coefficients, CurvePoint, CurveScalar, Error, SecretShare};
use rand::rngs::OsRng;

fn shamir_split(secret: &Scalar, n: u32, t: u32) -> Vec<SecretShare<Scalar>> {
    let mut rng = OsRng;
    let mut coeffs = vec![*secret];
    for _ in 1..t {
        coeffs.push(Scalar::random(&mut rng));
    }

    (1..=n)
        .map(|i| {
            let x = Scalar::from(i);
            let mut y = Scalar::ZERO;
            let mut x_pow = Scalar::ONE;
            for coeff in &coeffs {
                y += coeff * x_pow;
                x_pow *= x;
            }
            SecretShare::new(i, y).expect("index is 1-indexed by construction")
        })
        .collect()
}

/// Old-set members holding `old_shares`, re-dealing to `new_n` players
/// with new threshold `new_t`. Returns dealers keyed by index.
fn make_dealers(
    old_shares: &[SecretShare<Scalar>],
    new_t: u32,
) -> Vec<Dealer<RistrettoPoint>> {
    let mut rng = OsRng;
    old_shares
        .iter()
        .map(|s| Dealer::new(s.index, *s.scalar(), new_t, &mut rng).expect("index is 1-indexed by construction"))
        .collect()
}

fn dealer_by_index(dealers: &[Dealer<RistrettoPoint>], idx: u32) -> &Dealer<RistrettoPoint> {
    dealers.iter().find(|d| d.index() == idx).unwrap()
}

/// Run a full reshare for players `1..=new_n` over dealer set `set`.
fn reshare_all(
    dealers: &[Dealer<RistrettoPoint>],
    set: &[u32],
    new_n: u32,
    group_pubkey: &RistrettoPoint,
) -> Vec<(Scalar, SharePolynomial<RistrettoPoint>)> {
    (1..=new_n)
        .map(|j| {
            let mut agg: Aggregator<RistrettoPoint> = Aggregator::new(j, set).unwrap();
            for &i in set {
                let d = dealer_by_index(dealers, i);
                assert!(agg
                        .add_subshare(d.generate_subshare(j).expect("index is 1-indexed by construction"), d.commitment().clone())
                        .unwrap());
            }
            assert!(agg.is_complete());
            agg.finalize(group_pubkey).unwrap()
        })
        .collect()
}

fn reconstruct(shares: &[(u32, Scalar)]) -> Scalar {
    let indices: Vec<u32> = shares.iter().map(|(i, _)| *i).collect();
    let lagrange = compute_lagrange_coefficients::<Scalar>(&indices).unwrap();
    let mut acc = Scalar::ZERO;
    for ((_, s), l) in shares.iter().zip(lagrange.iter()) {
        acc += l * s;
    }
    acc
}

#[test]
fn test_basic_reshare() {
    let mut rng = OsRng;

    let secret = Scalar::random(&mut rng);
    let group_pubkey: RistrettoPoint = RistrettoPoint::generator().mul_scalar(&secret);

    // Old: 5/3, New: 7/5. Dealer set = all five (any size ≥ t_old works
    // as long as every player uses the same set).
    let old_shares = shamir_split(&secret, 5, 3);
    let dealers = make_dealers(&old_shares, 5);
    let set = [1, 2, 3, 4, 5];

    let out = reshare_all(&dealers, &set, 7, &group_pubkey);

    // Any 5 of the 7 new shares reconstruct the secret
    let five: Vec<(u32, Scalar)> = [1u32, 3, 4, 6, 7]
        .iter()
        .map(|&j| (j, out[(j - 1) as usize].0))
        .collect();
    assert_eq!(reconstruct(&five), secret);
}

#[test]
fn test_threshold_subset_dealers() {
    let mut rng = OsRng;

    let secret = Scalar::random(&mut rng);
    let group_pubkey: RistrettoPoint = RistrettoPoint::generator().mul_scalar(&secret);

    // Only 3 of 5 old members deal: S = {1, 3, 5}
    let old_shares = shamir_split(&secret, 5, 3);
    let dealers = make_dealers(&old_shares, 3);
    let set = [1, 3, 5];

    let out = reshare_all(&dealers, &set, 5, &group_pubkey);
    assert_eq!(*out[0].1.group_key(), group_pubkey);

    let three: Vec<(u32, Scalar)> = [2u32, 4, 5]
        .iter()
        .map(|&j| (j, out[(j - 1) as usize].0))
        .collect();
    assert_eq!(reconstruct(&three), secret);
}

#[test]
fn test_polynomial_and_verifying_shares_consistent_across_players() {
    let mut rng = OsRng;
    let secret = Scalar::random(&mut rng);
    let group_pubkey: RistrettoPoint = RistrettoPoint::generator().mul_scalar(&secret);

    let old_shares = shamir_split(&secret, 5, 3);
    let dealers = make_dealers(&old_shares, 4);
    let set = [2, 3, 5];
    let out = reshare_all(&dealers, &set, 6, &group_pubkey);

    // Every player derived the same polynomial = the epoch's public key package
    let poly = &out[0].1;
    assert_eq!(poly.threshold(), 4);
    assert_eq!(*poly.group_key(), group_pubkey);
    for (_, p) in &out {
        assert_eq!(p, poly);
    }

    // Each player's share sits on it: g^{s'_j} == F'(j)
    for (j, (share, _)) in out.iter().enumerate() {
        let j = j as u32 + 1;
        assert!(poly.verify_share(j, share));
        assert_eq!(
            poly.verifying_share(j),
            RistrettoPoint::generator().mul_scalar(share)
        );
        // and not on a neighbour's slot
        assert!(!poly.verify_share(j % 6 + 1, share));
    }

    // Round-trips
    let bytes = poly.to_bytes();
    let back = SharePolynomial::<RistrettoPoint>::from_bytes(&bytes, 4).unwrap();
    assert_eq!(&back, poly);
}

/// The failure the fixed dealer set exists to prevent.
///
/// Players who aggregate over different dealer subsets each pass the
/// group-key invariant, but their shares lie on different polynomials and
/// do not combine. The public polynomials differ, which is how a
/// coordinator would now detect it.
#[test]
fn test_split_dealer_sets_are_incompatible_and_detectable() {
    let mut rng = OsRng;
    let secret = Scalar::random(&mut rng);
    let group_pubkey: RistrettoPoint = RistrettoPoint::generator().mul_scalar(&secret);

    let old_shares = shamir_split(&secret, 5, 3);
    let dealers = make_dealers(&old_shares, 3);

    // Players 1..3 saw S1, players 4..5 saw S2
    let s1 = [1, 2, 3];
    let s2 = [1, 2, 4];
    let group_a = reshare_all(&dealers, &s1, 3, &group_pubkey);
    let group_b: Vec<_> = (4..=5u32)
        .map(|j| {
            let mut agg: Aggregator<RistrettoPoint> = Aggregator::new(j, &s2).unwrap();
            for &i in &s2 {
                let d = dealer_by_index(&dealers, i);
                agg.add_subshare(d.generate_subshare(j).expect("index is 1-indexed by construction"), d.commitment().clone())
                    .unwrap();
            }
            agg.finalize(&group_pubkey).unwrap()
        })
        .collect();

    // Both groups pass the invariant individually...
    assert_eq!(*group_a[0].1.group_key(), group_pubkey);
    assert_eq!(*group_b[0].1.group_key(), group_pubkey);
    // ...but hold different polynomials
    assert_ne!(group_a[0].1, group_b[0].1);

    // Homogeneous quorums reconstruct
    assert_eq!(
        reconstruct(&[(1, group_a[0].0), (2, group_a[1].0), (3, group_a[2].0)]),
        secret
    );
    // A mixed quorum does not
    assert_ne!(
        reconstruct(&[(1, group_a[0].0), (2, group_a[1].0), (4, group_b[0].0)]),
        secret
    );
    // and the stray member fails verification against group A's package
    assert!(!group_a[0].1.verify_share(4, &group_b[0].0));
}

#[test]
fn test_unexpected_dealer_rejected_even_if_valid() {
    let mut rng = OsRng;
    let secret = Scalar::random(&mut rng);
    let old_shares = shamir_split(&secret, 5, 3);
    let dealers = make_dealers(&old_shares, 3);

    let mut agg: Aggregator<RistrettoPoint> = Aggregator::new(1, &[1, 2, 3]).unwrap();
    let d4 = dealer_by_index(&dealers, 4);
    // Perfectly valid sub-share from dealer 4, but 4 is not in S
    assert_eq!(
        agg.add_subshare(d4.generate_subshare(1).expect("index is 1-indexed by construction"), d4.commitment().clone()),
        Err(Error::UnexpectedDealer(4))
    );
    assert_eq!(agg.count(), 0);
}

#[test]
fn test_incomplete_dealer_set_cannot_finalize() {
    let mut rng = OsRng;
    let secret = Scalar::random(&mut rng);
    let group_pubkey: RistrettoPoint = RistrettoPoint::generator().mul_scalar(&secret);
    let old_shares = shamir_split(&secret, 5, 3);
    let dealers = make_dealers(&old_shares, 3);

    let mut agg: Aggregator<RistrettoPoint> = Aggregator::new(2, &[1, 2, 3]).unwrap();
    for &i in &[1u32, 3] {
        let d = dealer_by_index(&dealers, i);
        agg.add_subshare(d.generate_subshare(2).expect("index is 1-indexed by construction"), d.commitment().clone())
            .unwrap();
    }
    assert!(!agg.is_complete());
    assert_eq!(agg.missing_dealers(), vec![2]);
    // Two of three arrived. Old code would have interpolated over {1,3}
    // with the wrong Lagrange set; now it refuses.
    assert_eq!(
        agg.finalize(&group_pubkey),
        Err(Error::InsufficientContributions { got: 2, need: 3 })
    );
}

#[test]
fn test_threshold_mismatch_rejected() {
    let mut rng = OsRng;
    let secret = Scalar::random(&mut rng);
    let old_shares = shamir_split(&secret, 5, 3);

    let d1: Dealer<RistrettoPoint> =
        Dealer::new(1, *old_shares[0].scalar(), 3, &mut rng).expect("index is 1-indexed by construction");
    let d2: Dealer<RistrettoPoint> =
        Dealer::new(2, *old_shares[1].scalar(), 4, &mut rng).expect("index is 1-indexed by construction");

    let mut agg: Aggregator<RistrettoPoint> = Aggregator::new(1, &[1, 2, 3]).unwrap();
    agg.add_subshare(d1.generate_subshare(1).expect("index is 1-indexed by construction"), d1.commitment().clone())
        .unwrap();
    assert_eq!(
        agg.add_subshare(d2.generate_subshare(1).expect("index is 1-indexed by construction"), d2.commitment().clone()),
        Err(Error::ThresholdMismatch { expected: 3, got: 4 })
    );
}

#[test]
fn test_aggregator_dealer_set_validation() {
    assert_eq!(
        Aggregator::<RistrettoPoint>::new(0, &[1]).err(),
        Some(Error::InvalidIndex)
    );
    assert_eq!(
        Aggregator::<RistrettoPoint>::new(1, &[]).err(),
        Some(Error::EmptyContributions)
    );
    assert_eq!(
        Aggregator::<RistrettoPoint>::new(1, &[3, 1, 3]).err(),
        Some(Error::DuplicateIndex(3))
    );
    assert_eq!(
        Aggregator::<RistrettoPoint>::new(1, &[0, 2]).err(),
        Some(Error::InvalidIndex)
    );
    let agg = Aggregator::<RistrettoPoint>::new(1, &[5, 2, 9]).unwrap();
    assert_eq!(agg.dealer_set(), &[2, 5, 9]);
}

/// sub-shares are paired with commitments by dealer index, not by
/// position, so a caller that passes the two slices in different orders
/// still verifies the right pairs — and a sub-share whose dealer has no
/// commitment is rejected rather than checked against someone else's.
#[test]
fn batch_verification_pairs_by_dealer_index() {
    let mut rng = OsRng;
    let secret = Scalar::random(&mut rng);
    let old_shares = shamir_split(&secret, 3, 3);
    let dealers: Vec<Dealer<RistrettoPoint>> = old_shares
        .iter()
        .map(|s| Dealer::new(s.index, *s.scalar(), 3, &mut rng).unwrap())
        .collect();

    let player_index = 1u32;
    let subshares: Vec<SubShare<Scalar>> = dealers
        .iter()
        .map(|d| d.generate_subshare(player_index).unwrap())
        .collect();
    let mut commitments: Vec<DealerCommitment<RistrettoPoint>> =
        dealers.iter().map(|d| d.commitment().clone()).collect();

    // shuffled commitments: positional zipping would verify the wrong pairs
    commitments.reverse();
    assert!(batch_verify_subshares(
            player_index,
            &subshares,
            &commitments,
            &mut rng
        ));

    // a sub-share from a dealer the commitment set does not name
    let orphan = vec![SubShare::new(9, player_index, Scalar::random(&mut rng)).unwrap()];
    assert!(!batch_verify_subshares(
            player_index,
            &orphan,
            &commitments[..1],
            &mut rng
        ));
}

#[test]
fn test_batch_verification() {
    let mut rng = OsRng;

    let secret = Scalar::random(&mut rng);
    let old_shares = shamir_split(&secret, 5, 3);

    let dealers: Vec<Dealer<RistrettoPoint>> = old_shares
        .iter()
        .map(|s| Dealer::new(s.index, *s.scalar(), 3, &mut rng).expect("index is 1-indexed by construction"))
        .collect();

    let player_index = 1u32;
    let subshares: Vec<SubShare<Scalar>> = dealers
        .iter()
        .map(|d| d.generate_subshare(player_index).expect("index is 1-indexed by construction"))
        .collect();
    let commitments: Vec<DealerCommitment<RistrettoPoint>> =
        dealers.iter().map(|d| d.commitment().clone()).collect();

    // Batch verify should succeed
    assert!(batch_verify_subshares(
            player_index,
            &subshares,
            &commitments,
            &mut rng
        ));

    // Tamper with one sub-share
    let mut bad_subshares = subshares.clone();
    bad_subshares[0] = SubShare::new(1, 1, Scalar::random(&mut rng)).expect("index is 1-indexed by construction");

    // Should fail
    assert!(!batch_verify_subshares(
            player_index,
            &bad_subshares,
            &commitments,
            &mut rng
        ));
}

#[test]
fn test_reshare_state() {
    let mut rng = OsRng;

    let secret = Scalar::random(&mut rng);
    let group_pubkey: RistrettoPoint = RistrettoPoint::generator().mul_scalar(&secret);

    let old_shares = shamir_split(&secret, 5, 3);

    let mut state: ReshareState<RistrettoPoint> = ReshareState::new(
        1, // epoch
        5, // old dealers
        3, // old threshold
        3, // new threshold
        5, // new players
        group_pubkey,
    );

    // Submit commitments
    for share in &old_shares {
        let dealer: Dealer<RistrettoPoint> =
            Dealer::new(share.index, *share.scalar(), 3, &mut rng).expect("index is 1-indexed by construction");
        state
            .submit_commitment(dealer.commitment().clone())
            .unwrap();
    }

    assert!(state.has_quorum());
    assert_eq!(state.dealer_set(), Some(vec![1, 2, 3]));
    assert!(state.verify_group_key().unwrap());

    // Only dealers 2, 4, 5 commit: the set is the three lowest committed
    let mut partial: ReshareState<RistrettoPoint> =
        ReshareState::new(2, 5, 3, 3, 5, group_pubkey);
    assert_eq!(partial.dealer_set(), None);
    for &i in &[5usize, 2, 4] {
        let share = &old_shares[i - 1];
        let dealer: Dealer<RistrettoPoint> =
            Dealer::new(share.index, *share.scalar(), 3, &mut rng).expect("index is 1-indexed by construction");
        partial.submit_commitment(dealer.commitment().clone()).unwrap();
    }
    assert_eq!(partial.dealer_set(), Some(vec![2, 4, 5]));
    assert!(partial.verify_group_key().unwrap());
}

#[test]
fn test_commitment_serialization() {
    let mut rng = OsRng;
    let dealer: Dealer<RistrettoPoint> = Dealer::new(1, Scalar::random(&mut rng), 3, &mut rng).expect("index is 1-indexed by construction");

    let original = dealer.commitment().clone();
    let bytes = original.to_bytes();
    let recovered = DealerCommitment::<RistrettoPoint>::from_bytes(&bytes, 3).unwrap();

    assert_eq!(original.dealer_index, recovered.dealer_index);
    assert_eq!(original.coefficients.len(), recovered.coefficients.len());
    for (a, b) in original
        .coefficients
        .iter()
        .zip(recovered.coefficients.iter())
    {
        assert_eq!(a, b);
    }
}

#[test]
fn test_horner_evaluation() {
    let mut rng = OsRng;
    let dealer: Dealer<RistrettoPoint> = Dealer::new(1, Scalar::random(&mut rng), 5, &mut rng).expect("index is 1-indexed by construction");

    // Verify commitment evaluation matches sub-share
    for j in 1..=10u32 {
        let subshare = dealer.generate_subshare(j).expect("index is 1-indexed by construction");
        let eval = dealer.commitment().evaluate_at(j).expect("index is 1-indexed by construction");
        let expected: RistrettoPoint = RistrettoPoint::generator().mul_scalar(subshare.value());
        assert_eq!(eval, expected);
    }
}
