//! Texts: error messages, digests in hexadecimal, and debugging texts, in which no
//! secret appears.
use curve25519_dalek::ristretto::RistrettoPoint;
use curve25519_dalek::scalar::Scalar;
use frostito::dkg::{self, BadSubShareEvidence, EchoDigest};
use frostito::frost::{Nonces, SignatureShare};
use frostito::hex::hex_string;
use frostito::liveness::{hex_short, ContributionSignature};
use frostito::nested::InnerSignatureShare;
use frostito::reshare::{self, SubShare};
use frostito::sealed::OpenFailure;
use frostito::{OsstError, OsstPoint, OsstScalar, SecretShare};

#[test]
fn every_error_has_its_text() {
    let expected = [
        (OsstError::EmptyContributions, "no contributions provided"),
        (
            OsstError::InsufficientContributions { got: 1, need: 12 },
            "insufficient contributions: got 1, need 12",
        ),
        (OsstError::DuplicateIndex(7), "duplicate custodian index: 7"),
        (OsstError::ZeroChallenge, "challenge hash is zero"),
        (OsstError::InvalidCommitment, "invalid commitment point"),
        (OsstError::InvalidResponse, "invalid response scalar"),
        (OsstError::LagrangeError, "lagrange coefficient computation failed"),
        (OsstError::InvalidIndex, "index must be greater than 0"),
        (OsstError::UnexpectedDealer(10), "dealer 10 is not in the agreed dealer set"),
        (
            OsstError::ThresholdMismatch { expected: 3, got: 4 },
            "dealer committed to threshold 4, expected 3",
        ),
        (OsstError::MessageMismatch, "signing package message is not the approved message"),
        (OsstError::UnexpectedCommitment, "commitment is not the one produced in this round"),
        (OsstError::ChallengeMismatch, "coordinator-supplied outer context does not match"),
        (OsstError::SessionMismatch, "session id mismatch"),
        (
            OsstError::InvalidProofOfKnowledge(5),
            "dealer 5 published an invalid proof of knowledge",
        ),
        (OsstError::InvalidSubShare(6), "dealer 6 sent an invalid sub-share"),
        (
            OsstError::DkgAborted { qualified: 1, need: 2 },
            "dkg aborted: 1 qualified dealers remain, need 2",
        ),
        (OsstError::SealedOpenFailed(8), "sealed package from dealer 8 did not open"),
        (OsstError::UnknownParticipant(9), "participant 9 is not on the roster"),
        (OsstError::UnknownQuorumMember(4), "quorum member 4 has no round-1 commitment"),
        (OsstError::EchoMismatch, "round-1 commitment sets disagree"),
        (
            OsstError::PrecommitMismatch(4294967295),
            "holder 4294967295 revealed a commitment it did not precommit to",
        ),
        (OsstError::SessionSpent, "this session has already produced a share"),
        (OsstError::InvalidComplaint, "complaint did not verify"),
    ];
    for (e, text) in expected {
        assert_eq!(e.message(), text);
    }
}

#[test]
fn a_failure_to_open_has_its_text_and_its_error() {
    let evidence = || BadSubShareEvidence {
        dealer_index: 3,
        recipient_index: 2,
        session_id: [5; 32],
        round: 2,
        subshare: [0xee; 32],
        agreed_digest: [1; 32],
        sealed_digest: [2; 32],
    };
    let bad = OpenFailure::BadSubShare { evidence: evidence() };
    assert_eq!(
        bad.message(),
        "sub-share from dealer 3 fails the Feldman check against the agreed commitment"
    );
    assert_eq!(bad.into_error(), OsstError::InvalidSubShare(3));
    let local = OpenFailure::from(OsstError::SealedOpenFailed(1));
    assert_eq!(local.message(), "sealed package from dealer 1 did not open");
    assert_eq!(local.into_error(), OsstError::SealedOpenFailed(1));
    assert_eq!(
        evidence().debug_text(),
        "BadSubShareEvidence { dealer_index: 3, recipient_index: 2, subshare: \"[REDACTED]\" }"
    );
}

#[test]
fn digests_print_in_hexadecimal() {
    let mut bytes = [0u8; 32];
    bytes[0] = 0xab;
    bytes[31] = 0x0f;
    let hex = EchoDigest(bytes).to_hex();
    assert_eq!(hex.len(), 64);
    assert!(hex.starts_with("ab00"));
    assert!(hex.ends_with("000f"));
    assert_eq!(hex_string(&[0, 255, 16]), "00ff10");
    assert_eq!(hex_short(&[1, 2, 3]), "010203");
    assert_eq!(hex_short(&[0, 1, 2, 3, 4, 5, 6, 7]), "0001020304050607");
    assert_eq!(hex_short(&[0, 1, 2, 3, 4, 5, 6, 7, 8]), "00010203...05060708");
}

#[test]
fn debugging_texts_leave_the_secrets_out() {
    let secret = Scalar::from_u32(424242);
    let share = SecretShare::new(7, secret).unwrap();
    assert_eq!(share.debug_text(), "SecretShare { index: 7, scalar: \"[REDACTED]\" }");
    let nonces = Nonces::from_scalars(secret, secret);
    assert_eq!(nonces.debug_text(), "Nonces([REDACTED])");
    let partial = SignatureShare { index: 2, response: secret };
    assert_eq!(partial.debug_text(), "SignatureShare { index: 2, response: \"[REDACTED]\" }");
    let inner = InnerSignatureShare { holder_index: 3, response: secret };
    assert_eq!(
        inner.debug_text(),
        "InnerSignatureShare { holder_index: 3, response: \"[REDACTED]\" }"
    );
    let sub = SubShare::new(1, 2, secret).unwrap();
    assert_eq!(
        sub.debug_text(),
        "SubShare { dealer_index: 1, player_index: 2, value: \"[REDACTED]\" }"
    );
    let g = <RistrettoPoint as OsstPoint>::generator();
    let sig = ContributionSignature::<RistrettoPoint>::new(g, secret);
    assert_eq!(
        sig.debug_text(),
        "ContributionSignature { r: \"e2f2ae0a...e08d2d76\", s: \"[SCALAR]\" }"
    );
    let a = dkg::Aggregator::<RistrettoPoint>::new(4, &[3, 1, 10]).unwrap();
    assert_eq!(
        a.debug_text(),
        "dkg::Aggregator { player_index: 4, dealer_set: [1, 3, 10], count: 0 }"
    );
    let a = reshare::Aggregator::<RistrettoPoint>::new(4, &[5]).unwrap();
    assert_eq!(a.debug_text(), "Aggregator { player_index: 4, dealer_set: [5], count: 0 }");
}

#[test]
fn secrets_are_overwritten() {
    let secret = Scalar::from_u32(424242);
    let mut share = SecretShare::new(7, secret).unwrap();
    share.zeroize();
    assert_eq!(*share.scalar(), Scalar::ZERO);
    assert_eq!(share.index(), 7);
    let mut sub = SubShare::new(1, 2, secret).unwrap();
    sub.zeroize();
    assert_eq!(*sub.value(), Scalar::ZERO);
    let mut dealer =
        reshare::Dealer::<RistrettoPoint>::from_polynomial(1, vec![secret, secret]).unwrap();
    dealer.zeroize();
    let mut dealer = dkg::Dealer::<RistrettoPoint>::from_polynomial(1, vec![secret]).unwrap();
    dealer.zeroize();
}
