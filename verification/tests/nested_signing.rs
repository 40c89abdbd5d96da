//! What inner holders refuse, and what they sign.
use std::collections::BTreeMap;

use curve25519_dalek::ristretto::RistrettoPoint;
use curve25519_dalek::scalar::Scalar;
use frostito::frost;
use frostito::nested::{
    aggregate_inner_commitment_pair, aggregate_inner_shares_verified, inner_commit,
    inner_precommit, inner_sign_v2, inner_sign_v2_spending, inner_sign_v2_with_context,
    split_evaluation_for_inner,
    InnerCommitments, InnerSignatureShare, InnerSigningParamsV2, MemorySpentSessions,
    NestedSigningRequest, SpentSessions,
};
use frostito::signer::{Holder, SignRequest, Signer, Spend, Stack};
use frostito::{
    compute_lagrange_coefficients, CurvePoint, CurveScalar, Error, SecretShare, SigningContext,
};
use rand::rngs::OsRng;

type Point = RistrettoPoint;

const SESSION: [u8; 32] = [0x5Au8; 32];

/// The nested position's entry in the outer round.
fn nested_pair(hiding: Point, binding: Point) -> frost::SigningCommitments<Point> {
    frost::SigningCommitments { index: 2, hiding, binding }
}

/// An outer signing package.
fn package_over(
    msg: &[u8],
    entries: Vec<frost::SigningCommitments<Point>>,
) -> frost::SigningPackage<Point> {
    frost::SigningPackage::new(msg.to_vec(), entries).unwrap()
}

/// Shamir-split `secret` into `n` shares with threshold `t`.
fn split(secret: &Scalar, n: u32, t: u32, rng: &mut OsRng) -> Vec<SecretShare<Scalar>> {
    let mut coeffs = vec![*secret];
    for _ in 1..t {
        coeffs.push(<Scalar as CurveScalar>::random(rng));
    }
    (1..=n)
        .map(|i| {
            let x = <Scalar as CurveScalar>::from_u32(i);
            let mut y = <Scalar as CurveScalar>::zero();
            let mut xp = <Scalar as CurveScalar>::one();
            for c in &coeffs {
                y = y.add(&c.mul(&xp));
                xp = xp.mul(&x);
            }
            SecretShare::new(i, y).unwrap()
        })
        .collect()
}

/// Build the whole outer 2-of-2 world used by the tests below.
///
/// Position 1 is an ordinary signer. Position 2 is the nested position, whose
/// outer share sigma_2 is split 3-of-5 among inner holders {1,2,3}.
struct World {
    group_pubkey: Point,
    share_1: SecretShare<Scalar>,
    inner_shares: Vec<SecretShare<Scalar>>,
    quorum: Vec<u32>,
    /// g^sigma_2 — the nested position's outer verifying share.
    nested_public: Point,
}

fn world(rng: &mut OsRng) -> World {
    let secret = <Scalar as CurveScalar>::random(rng);
    let a1 = <Scalar as CurveScalar>::random(rng);
    let eval = |x: u32| {
        let xs = <Scalar as CurveScalar>::from_u32(x);
        secret.add(&a1.mul(&xs))
    };
    let group_pubkey = <Point as CurvePoint>::generator().mul_scalar(&secret);
    let sigma_2 = eval(2);
    let nested_public = <Point as CurvePoint>::generator().mul_scalar(&sigma_2);
    let pieces = split(&sigma_2, 5, 3, rng);
    World {
        group_pubkey,
        share_1: SecretShare::new(1, eval(1)).unwrap(),
        inner_shares: pieces[..3].to_vec(),
        quorum: vec![1, 2, 3],
        nested_public,
    }
}

/// Round 0: every holder's hash commitment to its round-1 reveal.
fn precommits(cs: &[InnerCommitments<Point>]) -> Vec<(u32, [u8; 32])> {
    cs.iter()
        .map(|c| (c.holder_index, inner_precommit::<Point>(c)))
        .collect()
}

fn public_shares(shares: &[SecretShare<Scalar>]) -> Vec<(u32, Point)> {
    shares
        .iter()
        .map(|s| {
            (
                s.index,
                <Point as CurvePoint>::generator().mul_scalar(s.scalar()),
            )
        })
        .collect()
}

/// A coordinator cannot obtain a signature on a message the inner group did not
/// approve: a holder refuses a package that carries another message.
#[test]
fn coordinator_cannot_swap_the_message_under_the_inner_group() {
    let mut rng = OsRng;
    let w = world(&mut rng);

    const APPROVED: &[u8] = b"release 10 ZEC to alice";
    const UNAPPROVED: &[u8] = b"release 10000 ZEC to mallory";

    // Inner round: the holders commit, for an agreed session id.
    let mut nonces = Vec::new();
    let mut commitments = Vec::new();
    for &k in &w.quorum {
        let (n, c) = inner_commit::<Point>(k, SESSION, &mut rng);
        nonces.push(n);
        commitments.push(c);
    }
    let (d_nested, e_nested) =
        aggregate_inner_commitment_pair::<Point>(&SESSION, &precommits(&commitments), &commitments).unwrap();

    // The coordinator is the other outer signer. It builds an outer package
    // over UNAPPROVED, using the group's real commitment pair.
    let (nonces_1, commits_1) = frost::commit::<Point>(1, &mut rng).unwrap();
    let commits_2 = nested_pair(d_nested, e_nested);
    let evil_package =
        package_over(UNAPPROVED, vec![commits_1, commits_2]);

    let pre = precommits(&commitments);
    let request = NestedSigningRequest {
        package: &evil_package,
        nested_index: 2,
        session_id: SESSION,
        inner_precommits: &pre,
        inner_commitments: &commitments,
        active_indices: &w.quorum,
        inner_threshold: 3,
    };

    // The group approved APPROVED. Every holder refuses, at the API.
    for (n, s) in nonces.into_iter().zip(w.inner_shares.iter()) {
        assert_eq!(
            inner_sign_v2::<Point>(n, s, &w.group_pubkey, APPROVED, &request).err().unwrap(),
            Error::MessageMismatch,
            "a holder must not sign a package over a message it did not approve"
        );
    }

    // The coordinator's own share alone is no signature: position 2 never
    // responded.
    let _ = frost::sign::<Point>(&evil_package, nonces_1, &w.share_1, &w.group_pubkey).unwrap();
}

/// Holders that sign the message they approved produce a signature that verifies.
#[test]
fn the_approved_message_still_signs() {
    let mut rng = OsRng;
    let w = world(&mut rng);
    const APPROVED: &[u8] = b"release 10 ZEC to alice";

    let mut nonces = Vec::new();
    let mut commitments = Vec::new();
    for &k in &w.quorum {
        let (n, c) = inner_commit::<Point>(k, SESSION, &mut rng);
        nonces.push(n);
        commitments.push(c);
    }
    let (d_nested, e_nested) =
        aggregate_inner_commitment_pair::<Point>(&SESSION, &precommits(&commitments), &commitments).unwrap();

    let (nonces_1, commits_1) = frost::commit::<Point>(1, &mut rng).unwrap();
    let commits_2 = nested_pair(d_nested, e_nested);
    let package =
        package_over(APPROVED, vec![commits_1, commits_2]);
    let pre = precommits(&commitments);
    let request = NestedSigningRequest {
        package: &package,
        nested_index: 2,
        session_id: SESSION,
        inner_precommits: &pre,
        inner_commitments: &commitments,
        active_indices: &w.quorum,
        inner_threshold: 3,
    };

    let mut sigs = Vec::new();
    for (n, s) in nonces.into_iter().zip(w.inner_shares.iter()) {
        sigs.push(inner_sign_v2::<Point>(n, s, &w.group_pubkey, APPROVED, &request).unwrap());
    }

    let params =
        InnerSigningParamsV2::from_outer::<Point>(&package, &w.group_pubkey, 2).unwrap();
    let z_nested = aggregate_inner_shares_verified::<Point>(
        &sigs,
        &commitments,
        &public_shares(&w.inner_shares),
        &params,
        &w.quorum,
    )
    .expect("every share verifies");

    let sig_1 = frost::sign::<Point>(&package, nonces_1, &w.share_1, &w.group_pubkey).unwrap();
    let sig_2 = frost::SignatureShare { index: 2, response: z_nested };

    let mut verifying = BTreeMap::new();
    verifying.insert(1, <Point as CurvePoint>::generator().mul_scalar(w.share_1.scalar()));
    verifying.insert(2, w.nested_public);

    let signature =
        frost::aggregate::<Point>(&package, &[sig_1, sig_2], &w.group_pubkey, Some(&verifying)).unwrap();
    assert!(frost::verify_signature(&w.group_pubkey, APPROVED, &signature));
}

/// The nested position's commitment pair in the outer package is tied to the
/// inner commitment round: a substituted entry is refused, not signed over.
#[test]
fn substituted_nested_commitment_is_rejected_by_the_holder() {
    let mut rng = OsRng;
    let w = world(&mut rng);
    let msg = b"settlement";

    let mut nonces = Vec::new();
    let mut commitments = Vec::new();
    for &k in &w.quorum {
        let (n, c) = inner_commit::<Point>(k, SESSION, &mut rng);
        nonces.push(n);
        commitments.push(c);
    }
    let (d_nested, e_nested) =
        aggregate_inner_commitment_pair::<Point>(&SESSION, &precommits(&commitments), &commitments).unwrap();

    // The coordinator publishes a DIFFERENT pair for position 2.
    let (_, foreign) = frost::commit::<Point>(2, &mut rng).unwrap();
    assert_ne!(foreign.hiding, d_nested);
    assert_ne!(foreign.binding, e_nested);

    let (_, commits_1) = frost::commit::<Point>(1, &mut rng).unwrap();
    let package =
        package_over(msg, vec![commits_1, foreign]);

    let pre = precommits(&commitments);
    let request = NestedSigningRequest {
        package: &package,
        nested_index: 2,
        session_id: SESSION,
        inner_precommits: &pre,
        inner_commitments: &commitments,
        active_indices: &w.quorum,
        inner_threshold: 3,
    };

    for (n, s) in nonces.into_iter().zip(w.inner_shares.iter()) {
        assert_eq!(
            inner_sign_v2::<Point>(n, s, &w.group_pubkey, msg, &request).err().unwrap(),
            Error::UnexpectedCommitment,
            "the holder must notice that the outer package is not over its own round"
        );
    }
}

/// Nonces from one inner round cannot be replayed into another, even when the
/// coordinator's package is otherwise well formed.
#[test]
fn nonces_from_another_session_are_rejected() {
    let mut rng = OsRng;
    let w = world(&mut rng);
    let msg = b"settlement";

    // Round A: the nonces the holders actually hold.
    let mut nonces_a = Vec::new();
    let mut commits_a = Vec::new();
    for &k in &w.quorum {
        let (n, c) = inner_commit::<Point>(k, SESSION, &mut rng);
        nonces_a.push(n);
        commits_a.push(c);
    }

    // Round B: a different session id, same holders.
    const OTHER: [u8; 32] = [0x11u8; 32];
    let mut commits_b = Vec::new();
    for &k in &w.quorum {
        let (_, c) = inner_commit::<Point>(k, OTHER, &mut rng);
        commits_b.push(c);
    }
    let (d_b, e_b) = aggregate_inner_commitment_pair::<Point>(&OTHER, &precommits(&commits_b), &commits_b).unwrap();

    let (_, commits_1) = frost::commit::<Point>(1, &mut rng).unwrap();
    let package = package_over(msg, vec![commits_1, nested_pair(d_b, e_b)]);

    let pre = precommits(&commits_b);
    let request = NestedSigningRequest {
        package: &package,
        nested_index: 2,
        session_id: OTHER,
        inner_precommits: &pre,
        inner_commitments: &commits_b,
        active_indices: &w.quorum,
        inner_threshold: 3,
    };

    // Holder 1 still holds round A's nonces; it must not answer round B.
    let n = nonces_a.remove(0);
    assert_eq!(
        inner_sign_v2::<Point>(n, &w.inner_shares[0], &w.group_pubkey, msg, &request).err().unwrap(),
        Error::SessionMismatch
    );

    // Mixing the two commitment sets is rejected at the aggregate as well.
    let mut mixed = commits_b.clone();
    mixed[0] = commits_a[0].clone();
    assert_eq!(
        aggregate_inner_commitment_pair::<Point>(&OTHER, &precommits(&mixed), &mixed).err().unwrap(),
        Error::SessionMismatch
    );
}

/// The shares must cover the quorum exactly: a short quorum names its missing
/// holders, and a duplicated share names the duplicate.
#[test]
fn incomplete_quorum_is_rejected() {
    let mut rng = OsRng;
    let w = world(&mut rng);
    let msg = b"m";

    let mut nonces = Vec::new();
    let mut commitments = Vec::new();
    for &k in &w.quorum {
        let (n, c) = inner_commit::<Point>(k, SESSION, &mut rng);
        nonces.push(n);
        commitments.push(c);
    }
    let (d_nested, e_nested) =
        aggregate_inner_commitment_pair::<Point>(&SESSION, &precommits(&commitments), &commitments).unwrap();

    let (_, commits_1) = frost::commit::<Point>(1, &mut rng).unwrap();
    let package = package_over(msg, vec![commits_1, nested_pair(d_nested, e_nested)]);
    let pre = precommits(&commitments);
    let request = NestedSigningRequest {
        package: &package,
        nested_index: 2,
        session_id: SESSION,
        inner_precommits: &pre,
        inner_commitments: &commitments,
        active_indices: &w.quorum,
        inner_threshold: 3,
    };
    let params =
        InnerSigningParamsV2::from_outer::<Point>(&package, &w.group_pubkey, 2).unwrap();

    let mut sigs = Vec::new();
    for (n, s) in nonces.into_iter().zip(w.inner_shares.iter()) {
        sigs.push(inner_sign_v2::<Point>(n, s, &w.group_pubkey, msg, &request).unwrap());
    }
    let pubs = public_shares(&w.inner_shares);

    // Drop holder 3 entirely. active_indices still says the quorum is {1,2,3}.
    assert_eq!(
        aggregate_inner_shares_verified::<Point>(
            &sigs[..2],
            &commitments,
            &pubs,
            &params,
            &w.quorum,
        )
        .err().unwrap(),
        vec![3],
        "a missing holder must be named, not silently tolerated"
    );

    // Duplicate holder 1 instead.
    let dup = vec![
        InnerSignatureShare {
            holder_index: sigs[0].holder_index,
            response: sigs[0].response,
        },
        InnerSignatureShare {
            holder_index: sigs[0].holder_index,
            response: sigs[0].response,
        },
        InnerSignatureShare {
            holder_index: sigs[1].holder_index,
            response: sigs[1].response,
        },
    ];
    assert_eq!(
        aggregate_inner_shares_verified::<Point>(&dup, &commitments, &pubs, &params, &w.quorum)
            .err().unwrap(),
        vec![1, 3],
        "a duplicated share and the still-missing holder are both named"
    );
}

/// A nested position's response is what a flat signer that holds the position's
/// secret, with the sums of the inner nonces, produces.
#[test]
fn v2_response_equals_the_flat_frost_response() {
    let mut rng = OsRng;
    let secret = <Scalar as CurveScalar>::random(&mut rng);
    let a1 = <Scalar as CurveScalar>::random(&mut rng);
    let eval = |x: u32| {
        let xs = <Scalar as CurveScalar>::from_u32(x);
        secret.add(&a1.mul(&xs))
    };
    let group_pubkey = <Point as CurvePoint>::generator().mul_scalar(&secret);
    let sigma_2 = eval(2);
    let pieces = split(&sigma_2, 5, 3, &mut rng);
    let quorum = vec![1u32, 2, 3];
    let inner: Vec<SecretShare<Scalar>> = pieces[..3].to_vec();

    let mut nonces = Vec::new();
    let mut commitments = Vec::new();
    for &k in &quorum {
        let (n, c) = inner_commit::<Point>(k, SESSION, &mut rng);
        nonces.push(n);
        commitments.push(c);
    }
    let (d_nested, e_nested) =
        aggregate_inner_commitment_pair::<Point>(&SESSION, &precommits(&commitments), &commitments).unwrap();

    let (_, commits_1) = frost::commit::<Point>(1, &mut rng).unwrap();
    let commits_2 = nested_pair(d_nested, e_nested);
    let package =
        package_over(b"m", vec![commits_1, commits_2]);
    let params = InnerSigningParamsV2::from_outer::<Point>(&package, &group_pubkey, 2).unwrap();
    let pre = precommits(&commitments);
    let request = NestedSigningRequest {
        package: &package,
        nested_index: 2,
        session_id: SESSION,
        inner_precommits: &pre,
        inner_commitments: &commitments,
        active_indices: &quorum,
        inner_threshold: 3,
    };

    let mut sigs = Vec::new();
    for (n, s) in nonces.into_iter().zip(inner.iter()) {
        sigs.push(inner_sign_v2::<Point>(n, s, &group_pubkey, b"m", &request).unwrap());
    }
    let mut z_nested = <Scalar as CurveScalar>::zero();
    for s in &sigs {
        z_nested = z_nested.add(&s.response);
    }

    // z*G == D_nested + rho*E_nested + lambda*c*(sigma_2*G).
    let lhs = <Point as CurvePoint>::generator().mul_scalar(&z_nested);
    let w = params.outer_lambda().mul(params.outer_challenge());
    let rhs = d_nested
        .add(&e_nested.mul_scalar(params.outer_binding()))
        .add(&<Point as CurvePoint>::generator().mul_scalar(&sigma_2).mul_scalar(&w));
    assert_eq!(lhs, rhs, "nested response is the flat FROST response");

    // Sanity: the inner quorum really does reconstruct sigma_2.
    let lag = compute_lagrange_coefficients::<Scalar>(&quorum).unwrap();
    let mut recon = <Scalar as CurveScalar>::zero();
    for (i, s) in inner.iter().enumerate() {
        recon = recon.add(&lag[i].mul(s.scalar()));
    }
    assert_eq!(recon, sigma_2);
}

/// A quorum with duplicates, with members that published no commitment, or
/// smaller than the threshold is an error, never a panic: these values come off
/// the wire.
#[test]
fn a_malformed_quorum_is_rejected_by_the_signer() {
    let mut rng = OsRng;
    let w = world(&mut rng);

    let cases: [(&[u32], u32, Error); 4] = [
        // duplicate holder: the Lagrange set is degenerate
        (&[1, 2, 2], 3, Error::DuplicateIndex(2)),
        // a member that published no round-1 commitment
        (&[1, 2, 9], 3, Error::UnknownQuorumMember(9)),
        // index 0 is not a Shamir index
        (&[1, 2, 0], 3, Error::InvalidIndex),
        // below the inner threshold the holder's own key material fixes
        (
            &[1, 2],
            3,
            Error::InsufficientContributions { got: 2, need: 3 },
        ),
    ];

    for (active, t, expected) in cases {
        // a full honest round, so nothing but the quorum is wrong
        let mut nonces = Vec::new();
        let mut commitments = Vec::new();
        for &k in &w.quorum {
            let (n, c) = inner_commit::<Point>(k, SESSION, &mut rng);
            nonces.push(n);
            commitments.push(c);
        }
        let (d_nested, e_nested) =
            aggregate_inner_commitment_pair::<Point>(&SESSION, &precommits(&commitments), &commitments).unwrap();
        let (_, commits_1) = frost::commit::<Point>(1, &mut rng).unwrap();
        let commits_2 = nested_pair(d_nested, e_nested);
        let package =
            package_over(b"m", vec![commits_1, commits_2]);

        let pre = precommits(&commitments);
        let request = NestedSigningRequest {
            package: &package,
            nested_index: 2,
            session_id: SESSION,
            inner_precommits: &pre,
            inner_commitments: &commitments,
            active_indices: active,
            inner_threshold: t,
        };

        let err = inner_sign_v2::<Point>(
            nonces.remove(0),
            &w.inner_shares[0],
            &w.group_pubkey,
            b"m",
            &request,
        )
        .err().unwrap();
        assert_eq!(err, expected, "quorum {:?} must be rejected", active);
    }
}

/// Every reveal must match the precommitment of its holder, so that no holder can
/// choose its commitment with every other one in hand.
#[test]
fn a_reveal_without_a_matching_precommit_is_rejected() {
    let mut rng = OsRng;
    let mut commitments = Vec::new();
    for k in 1..=3u32 {
        let (_, c) = inner_commit::<Point>(k, SESSION, &mut rng);
        commitments.push(c);
    }
    let good = precommits(&commitments);

    // honest round 0 + round 1 aggregates
    aggregate_inner_commitment_pair::<Point>(&SESSION, &good, &commitments).unwrap();

    // holder 2 precommitted to a different pair and revealed this one
    let (_, other) = inner_commit::<Point>(2, SESSION, &mut rng);
    let mut swapped = good.clone();
    swapped[1] = (2, inner_precommit::<Point>(&other));
    assert_eq!(
        aggregate_inner_commitment_pair::<Point>(&SESSION, &swapped, &commitments).err().unwrap(),
        Error::PrecommitMismatch(2),
        "a reveal that does not match its precommitment names the holder"
    );

    // holder 3 never precommitted at all
    let missing: Vec<(u32, [u8; 32])> = good.iter().copied().filter(|(k, _)| *k != 3).collect();
    assert_eq!(
        aggregate_inner_commitment_pair::<Point>(&SESSION, &missing, &commitments).err().unwrap(),
        Error::PrecommitMismatch(3)
    );

    // extra precommitments for holders that did not reveal are fine: a holder
    // may precommit and then fail to appear
    let mut extra = good.clone();
    extra.push((9, [0u8; 32]));
    aggregate_inner_commitment_pair::<Point>(&SESSION, &extra, &commitments).unwrap();
}

/// Consuming the nonces by value protects one process. It does not survive a
/// snapshot-restore, which the spent-session store is for.
#[test]
fn a_spent_session_cannot_sign_twice_across_a_restore() {
    let mut rng = OsRng;
    let w = world(&mut rng);

    let mut nonces = Vec::new();
    let mut commitments = Vec::new();
    for &k in &w.quorum {
        let (n, c) = inner_commit::<Point>(k, SESSION, &mut rng);
        nonces.push(n);
        commitments.push(c);
    }
    let pre = precommits(&commitments);
    let (d_nested, e_nested) =
        aggregate_inner_commitment_pair::<Point>(&SESSION, &pre, &commitments).unwrap();
    let (_, commits_1) = frost::commit::<Point>(1, &mut rng).unwrap();
    let commits_2 = nested_pair(d_nested, e_nested);
    let package =
        package_over(b"m", vec![commits_1, commits_2]);
    let request = NestedSigningRequest {
        package: &package,
        nested_index: 2,
        session_id: SESSION,
        inner_precommits: &pre,
        inner_commitments: &commitments,
        active_indices: &w.quorum,
        inner_threshold: 3,
    };

    let mut store = MemorySpentSessions::new();
    assert!(!store.is_spent(&SESSION, 1));

    inner_sign_v2_spending::<Point, _>(
        &mut store,
        nonces.remove(0),
        &w.inner_shares[0],
        &w.group_pubkey,
        b"m",
        &request,
    )
    .expect("the first share is produced normally");
    assert!(store.is_spent(&SESSION, 1));

    // the restore: the node comes back from a snapshot taken before it
    // signed, re-runs round 1 for the same session, and tries again. Every
    // in-process guard is satisfied — `InnerNonces` is deliberately not
    // `Clone`, and these are genuinely fresh nonces — so only the durable
    // store can tell that this holder already answered this session.
    let (restored, restored_c) = inner_commit::<Point>(1, SESSION, &mut rng);
    let mut restored_commitments = commitments.clone();
    restored_commitments[0] = restored_c;
    let restored_pre = precommits(&restored_commitments);
    let (rd, re) = aggregate_inner_commitment_pair::<Point>(
        &SESSION,
        &restored_pre,
        &restored_commitments,
    )
    .unwrap();
    let (_, rc1) = frost::commit::<Point>(1, &mut rng).unwrap();
    let restored_package = package_over(b"m", vec![rc1, nested_pair(rd, re)]);
    let restored_request = NestedSigningRequest {
        package: &restored_package,
        nested_index: 2,
        session_id: SESSION,
        inner_precommits: &restored_pre,
        inner_commitments: &restored_commitments,
        active_indices: &w.quorum,
        inner_threshold: 3,
    };
    assert_eq!(
        inner_sign_v2_spending::<Point, _>(
            &mut store,
            restored,
            &w.inner_shares[0],
            &w.group_pubkey,
            b"m",
            &restored_request,
        )
        .err().unwrap(),
        Error::SessionSpent,
        "a restored node must not answer the same session twice"
    );

    // another holder in the same session is unaffected: the pair is
    // (session, holder), not the session alone
    assert!(!store.is_spent(&SESSION, 2));
    inner_sign_v2_spending::<Point, _>(
        &mut store,
        nonces.remove(0),
        &w.inner_shares[1],
        &w.group_pubkey,
        b"m",
        &request,
    )
    .expect("holder 2 has not signed this session");
    assert_eq!(store.len(), 2);
}

/// A tampered inner share is rejected, and the aggregate names the holder that
/// produced it.
#[test]
fn a_dishonest_inner_holder_is_named() {
    let mut rng = OsRng;
    let msg = b"m";
    let sigma_2 = <Scalar as CurveScalar>::random(&mut rng);
    let quorum: Vec<u32> = vec![1, 2, 3];
    let (pieces, _) = split_evaluation_for_inner::<Point>(&sigma_2, 5, 3, &mut rng);
    let inner: Vec<SecretShare<Scalar>> = quorum
        .iter()
        .map(|k| {
            let (_, piece) = pieces.iter().find(|(i, _)| i == k).unwrap();
            SecretShare::new(*k, *piece).unwrap()
        })
        .collect();

    let mut nonces = Vec::new();
    let mut commitments = Vec::new();
    for &k in &quorum {
        let (n, c) = inner_commit::<Point>(k, SESSION, &mut rng);
        nonces.push(n);
        commitments.push(c);
    }

    let pre = precommits(&commitments);
    let (d_nested, e_nested) =
        aggregate_inner_commitment_pair::<Point>(&SESSION, &pre, &commitments).unwrap();
    let group_pubkey = <Point as CurvePoint>::generator().mul_scalar(&sigma_2);

    let (_, commits_1) = frost::commit::<Point>(1, &mut rng).unwrap();
    let package = package_over(msg, vec![commits_1, nested_pair(d_nested, e_nested)]);
    let params =
        InnerSigningParamsV2::from_outer::<Point>(&package, &group_pubkey, 2).unwrap();

    let request = NestedSigningRequest {
        package: &package,
        nested_index: 2,
        session_id: SESSION,
        inner_precommits: &pre,
        inner_commitments: &commitments,
        active_indices: &quorum,
        inner_threshold: 3,
    };

    let mut sigs = Vec::new();
    for (n, share) in nonces.into_iter().zip(inner.iter()) {
        sigs.push(inner_sign_v2::<Point>(n, share, &group_pubkey, msg, &request).unwrap());
    }

    // holder 2 goes rogue
    sigs[1].response = sigs[1].response.add(&<Scalar as CurveScalar>::one());

    let err = aggregate_inner_shares_verified::<Point>(
        &sigs,
        &commitments,
        &public_shares(&inner),
        &params,
        &quorum,
    )
    .expect_err("a tampered share must be rejected");
    assert_eq!(err, vec![2], "the cheating holder must be identified");
}

/// Spending and epoch binding at once: the order is in the composition.
#[test]
fn a_stack_composes_spending_and_epoch_binding() {
    let mut rng = OsRng;
    let w = world(&mut rng);

    let ctx = SigningContext::new(7, [0x5a; 32], b"release the escrow");
    let bound = ctx.encode();

    let mut nonces = Vec::new();
    let mut commitments = Vec::new();
    for &k in &w.quorum {
        let (n, c) = inner_commit::<Point>(k, SESSION, &mut rng);
        nonces.push(n);
        commitments.push(c);
    }
    let pre = precommits(&commitments);
    let (d, e) = aggregate_inner_commitment_pair::<Point>(&SESSION, &pre, &commitments).unwrap();

    let (_, commits_1) = frost::commit::<Point>(1, &mut rng).unwrap();
    let package = package_over(&bound, vec![commits_1, nested_pair(d, e)]);

    let request = NestedSigningRequest {
        package: &package,
        nested_index: 2,
        session_id: SESSION,
        inner_precommits: &pre,
        inner_commitments: &commitments,
        active_indices: &w.quorum,
        inner_threshold: 3,
    };

    let share = &w.inner_shares[0];

    // Spend outermost, so the session is durable before any signing happens.
    let mut signer = Stack::new(Holder::new(share, &w.group_pubkey))
        .layer(Spend::new(MemorySpentSessions::new()))
        .into_inner();

    let first = signer.sign(SignRequest::bound(nonces.remove(0), &ctx, &request));
    assert!(first.is_ok(), "the composed stack must sign");

    // The epoch binding held: the package carries the context's encoding.
    assert_eq!(package.message(), bound.as_slice());

    // And the spend record went in, so the session cannot answer twice.
    assert!(signer.store().is_spent(&SESSION, 1));
    let (n2, _) = inner_commit::<Point>(w.quorum[0], SESSION, &mut rng);
    let again = signer.sign(SignRequest::bound(n2, &ctx, &request));
    assert_eq!(
        again.err().unwrap(),
        Error::SessionSpent,
        "the spend layer must refuse a second answer for the same session"
    );
}

/// A holder that signs for a context signs the context's bytes, and no others.
#[test]
fn a_holder_signs_for_its_context_alone() {
    let mut rng = OsRng;
    let w = world(&mut rng);
    let ctx = SigningContext::new(7, [0x5a; 32], b"release the escrow");
    let other = SigningContext::new(8, [0x5a; 32], b"release the escrow");

    let mut nonces = Vec::new();
    let mut commitments = Vec::new();
    for &k in &w.quorum {
        let (n, c) = inner_commit::<Point>(k, SESSION, &mut rng);
        nonces.push(n);
        commitments.push(c);
    }
    let pre = precommits(&commitments);
    let (d, e) = aggregate_inner_commitment_pair::<Point>(&SESSION, &pre, &commitments).unwrap();
    let (_, commits_1) = frost::commit::<Point>(1, &mut rng).unwrap();
    let package = package_over(&ctx.encode(), vec![commits_1, nested_pair(d, e)]);
    let request = NestedSigningRequest {
        package: &package,
        nested_index: 2,
        session_id: SESSION,
        inner_precommits: &pre,
        inner_commitments: &commitments,
        active_indices: &w.quorum,
        inner_threshold: 3,
    };
    let (share, key) = (&w.inner_shares[0], &w.group_pubkey);
    let signed =
        inner_sign_v2_with_context::<Point>(nonces.remove(0), share, key, &ctx, &request);
    assert_eq!(signed.ok().unwrap().holder_index, 1);
    let share = &w.inner_shares[1];
    let refused =
        inner_sign_v2_with_context::<Point>(nonces.remove(0), share, key, &other, &request);
    assert_eq!(refused.err(), Some(Error::MessageMismatch));

    // a refused record is a refusal, whatever the rest is
    let share = &w.inner_shares[2];
    let mut stack = Stack::new(Holder::new(share, key))
        .layer(Spend::new(MemorySpentSessions::new()))
        .into_inner();
    let third = SignRequest::raw(nonces.remove(0), b"other bytes", &request);
    assert_eq!(third.approved_message(), b"other bytes");
    assert_eq!(stack.sign(third).err(), Some(Error::MessageMismatch));
    // the session is spent all the same: it was recorded first
    let (n2, _) = inner_commit::<Point>(3, SESSION, &mut rng);
    let again = SignRequest::bound(n2, &ctx, &request);
    assert_eq!((again.nonces().holder(), again.nonces().session()), (3, &SESSION));
    assert_eq!(again.nested().nested_index, 2);
    let (n2, nested, message) = again.into_parts();
    assert_eq!(message, ctx.encode());
    let again = SignRequest::raw(n2, &message, nested);
    assert_eq!(stack.sign(again).err(), Some(Error::SessionSpent));
    let store = stack.into_store();
    assert!(store.is_spent(&SESSION, 3));
    assert_eq!(store.len(), 1);
}
