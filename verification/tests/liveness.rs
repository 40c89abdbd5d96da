//! Liveness proofs and contributions.
use curve25519_dalek::ristretto::RistrettoPoint;
use curve25519_dalek::scalar::Scalar;
use frostito::liveness::{
    CheckpointAnchor, ContributionError, ContributionVerifier, DealerContribution, LivenessProof,
    LivenessVerifier,
};
use frostito::reshare::{Dealer, DealerCommitment};
use frostito::OsstPoint;
use rand::rngs::OsRng;
use sha2::{Digest, Sha512};

/// Mock liveness verifier for testing
struct MockVerifier {
    current_height: u64,
    max_age: u64,
}

impl LivenessVerifier for MockVerifier {
    fn verify_ligerito_proof(
        &self,
        _anchor: &CheckpointAnchor,
        proof: &[u8],
        _state_root: &[u8; 32],
    ) -> bool {
        // Accept any non-empty proof in tests
        !proof.is_empty()
    }

    fn current_anchor(&self) -> CheckpointAnchor {
        CheckpointAnchor::new(self.current_height, [0u8; 32], 0)
    }

    fn max_checkpoint_age(&self) -> u64 {
        self.max_age
    }
}

/// `DealerCommitment::to_bytes` is variable-length, with the threshold
/// supplied out of band. Two distinct pairs of commitment and liveness proof
/// can therefore have one bare concatenation, the second commitment carrying
/// one extra coefficient that the first pair spends on the head of its
/// liveness proof. The length-prefixed message separates them.
#[test]
fn contribution_message_is_injective_across_the_commitment_boundary() {
    let mut rng = OsRng;
    let g = <RistrettoPoint as OsstPoint>::generator();
    let p1 = g.mul_scalar(&Scalar::random(&mut rng));
    let p2 = g.mul_scalar(&Scalar::random(&mut rng));
    // the extra coefficient, which pair A instead reads as the first 32
    // bytes of its anchor
    let x = g.mul_scalar(&Scalar::random(&mut rng));
    let x_bytes = OsstPoint::compress(&x);

    // pair A: two coefficients, the extra point absorbed by the anchor
    let commitment_a = DealerCommitment::<RistrettoPoint> {
        dealer_index: 7,
        coefficients: vec![p1, p2],
    };
    let height_a = u64::from_le_bytes(x_bytes[0..8].try_into().unwrap());
    let mut block_hash_a = [0u8; 32];
    block_hash_a[0..24].copy_from_slice(&x_bytes[8..32]);
    block_hash_a[24..32].copy_from_slice(&[0xA1; 8]);
    let timestamp_a = 0x0102_0304_0506_0708u64;
    // 32 proof bytes whose last four are zero: those four are pair B's
    // proof length, and it must read as empty
    let mut proof_a = [0x5Au8; 32];
    proof_a[28..32].copy_from_slice(&0u32.to_le_bytes());
    let state_root = [0xC3u8; 32];
    let liveness_a = LivenessProof::new(
        CheckpointAnchor::new(height_a, block_hash_a, timestamp_a),
        proof_a.to_vec(),
        state_root,
    );

    // pair B: three coefficients, its liveness proof made of the
    //     bytes pair A spent on the tail of its anchor and its proof
    let commitment_b = DealerCommitment::<RistrettoPoint> {
        dealer_index: 7,
        coefficients: vec![p1, p2, x],
    };
    let tail = &liveness_a.to_bytes()[32..];
    let liveness_b = LivenessProof::from_bytes(tail).expect("tail parses as a liveness proof");

    let context = b"osst-epoch-42";

    // without length prefixes: domain, commitment, liveness, context, bare
    let bare = |c: &DealerCommitment<RistrettoPoint>, l: &LivenessProof| {
        let mut h = Sha512::new();
        h.update(b"OSST-CONTRIBUTION-V1");
        h.update(c.to_bytes());
        h.update(l.to_bytes());
        h.update(context);
        let out: [u8; 64] = h.finalize().into();
        out
    };

    assert_ne!(
        commitment_a.to_bytes(),
        commitment_b.to_bytes(),
        "the two commitments must genuinely differ"
    );
    assert_eq!(
        bare(&commitment_a, &liveness_a),
        bare(&commitment_b, &liveness_b),
        "the bare concatenations really do collide here"
    );

    assert_ne!(
        DealerContribution::<RistrettoPoint>::signing_message(
            &commitment_a,
            &liveness_a,
            context
        ),
        DealerContribution::<RistrettoPoint>::signing_message(
            &commitment_b,
            &liveness_b,
            context
        ),
        "length prefixes must separate the two triples"
    );
}

/// The context field is trailing; a length prefix must stop it absorbing
/// bytes from, or donating bytes to, its neighbour.
#[test]
fn contribution_message_separates_the_context_field() {
    let mut rng = OsRng;
    let dealer: Dealer<RistrettoPoint> =
        Dealer::new(1, Scalar::random(&mut rng), 3, &mut rng).expect("index is 1-indexed by construction");
    let commitment = dealer.commitment().clone();
    let liveness = LivenessProof::new(
        CheckpointAnchor::new(100, [1u8; 32], 1234567890),
        vec![1, 2, 3, 4],
        [2u8; 32],
    );
    assert_ne!(
        DealerContribution::<RistrettoPoint>::signing_message(&commitment, &liveness, b"ab"),
        DealerContribution::<RistrettoPoint>::signing_message(&commitment, &liveness, b"abc"),
    );
}

#[test]
fn test_contribution_sign_verify() {
    let mut rng = OsRng;

    // Generate dealer key
    let secret = Scalar::random(&mut rng);
    let public: RistrettoPoint = RistrettoPoint::generator().mul_scalar(&secret);

    // Create dealer and commitment
    let dealer: Dealer<RistrettoPoint> = Dealer::new(1, Scalar::random(&mut rng), 3, &mut rng).expect("index is 1-indexed by construction");
    let commitment = dealer.commitment().clone();

    // Create liveness proof
    let anchor = CheckpointAnchor::new(100, [1u8; 32], 1234567890);
    let liveness = LivenessProof::new(anchor, vec![1, 2, 3, 4], [2u8; 32]);

    // Sign contribution
    let context = b"test-epoch-42";
    let contribution =
        DealerContribution::sign(commitment, liveness, &secret, context, &mut rng);

    // Verify signature
    assert!(contribution.verify_signature(&public, context));

    // Wrong context should fail
    assert!(!contribution.verify_signature(&public, b"wrong-context"));

    // Wrong public key should fail
    let wrong_public: RistrettoPoint =
        RistrettoPoint::generator().mul_scalar(&Scalar::random(&mut rng));
    assert!(!contribution.verify_signature(&wrong_public, context));
}

#[test]
fn test_contribution_verifier() {
    let mut rng = OsRng;

    let verifier = MockVerifier {
        current_height: 100,
        max_age: 10,
    };

    let secret = Scalar::random(&mut rng);
    let public: RistrettoPoint = RistrettoPoint::generator().mul_scalar(&secret);

    let dealer: Dealer<RistrettoPoint> = Dealer::new(1, Scalar::random(&mut rng), 3, &mut rng).expect("index is 1-indexed by construction");
    let commitment = dealer.commitment().clone();

    // Recent checkpoint - should pass
    let anchor = CheckpointAnchor::new(95, [1u8; 32], 0);
    let liveness = LivenessProof::new(anchor, vec![1, 2, 3], [0u8; 32]);
    let context = b"epoch-1";

    let contribution =
        DealerContribution::sign(commitment.clone(), liveness, &secret, context, &mut rng);

    let cv = ContributionVerifier::<RistrettoPoint, _>::new(&verifier, context);
    assert!(cv.verify(&contribution, &public).is_ok());

    // Old checkpoint - should fail
    let old_anchor = CheckpointAnchor::new(50, [1u8; 32], 0);
    let old_liveness = LivenessProof::new(old_anchor, vec![1, 2, 3], [0u8; 32]);

    let old_contribution =
        DealerContribution::sign(commitment, old_liveness, &secret, context, &mut rng);

    assert_eq!(
        cv.verify(&old_contribution, &public),
        Err(ContributionError::CheckpointTooOld)
    );
}

#[test]
fn test_checkpoint_serialization() {
    let anchor = CheckpointAnchor::new(12345, [0xab; 32], 1700000000);
    let bytes = anchor.to_bytes();

    assert_eq!(bytes.len(), 48);
    assert_eq!(u64::from_le_bytes(bytes[0..8].try_into().unwrap()), 12345);
}

#[test]
fn test_liveness_proof_serialization() {
    let anchor = CheckpointAnchor::new(100, [1u8; 32], 123);
    let proof = LivenessProof::new(anchor.clone(), vec![1, 2, 3, 4, 5], [2u8; 32]);

    let bytes = proof.to_bytes();
    let recovered = LivenessProof::from_bytes(&bytes).unwrap();

    assert_eq!(recovered.anchor, anchor);
    assert_eq!(recovered.ligerito_proof, vec![1, 2, 3, 4, 5]);
    assert_eq!(recovered.state_root, [2u8; 32]);
}
