//! Exact values: published vectors, and each formula recomputed from its parts.
use std::collections::BTreeMap;

use curve25519_dalek::ristretto::RistrettoPoint;
use curve25519_dalek::scalar::Scalar;
use frostito::context::SigningContext;
use frostito::dkg::{self, commitment_digest, round1_echo_digest, ProofOfKnowledge};
use frostito::frost::{self, Nonces, Signature, SignatureShare, SigningCommitments, SigningPackage};
use frostito::nested::{self, InnerCommitments};
use frostito::reshare::DealerCommitment;
use frostito::sealed::{
    sealed_ciphertext_digest, x25519_public_from_seed, x25519_secret_from_seed, SealedRoster,
};
use frostito::zf::hash_to_array;
use frostito::{compute_lagrange_coefficients, OsstError, OsstPoint, OsstScalar, SecretShare};
use hkdf::Hkdf;
use sha2::{Digest, Sha256, Sha512};
use x25519_dalek::{PublicKey, StaticSecret};

type P = RistrettoPoint;

fn num(v: u32) -> Scalar {
    Scalar::from_u32(v)
}

fn point(v: u32) -> P {
    <P as OsstPoint>::generator().mul_scalar(&num(v))
}

fn enc(v: u32) -> [u8; 32] {
    OsstPoint::compress(&point(v))
}

fn scalar512(parts: &[&[u8]]) -> Scalar {
    let mut h = Sha512::new();
    for p in parts {
        h.update(p);
    }
    let out: [u8; 64] = h.finalize().into();
    Scalar::from_bytes_mod_order_wide(&out)
}

fn len8(n: usize) -> [u8; 8] {
    (n as u64).to_le_bytes()
}

#[test]
fn sha512_of_abc() {
    let parts: [&[u8]; 2] = [b"a", b"bc"];
    let d = hash_to_array(&parts);
    assert_eq!(&d[..8], &[0xdd, 0xaf, 0x35, 0xa1, 0x93, 0x61, 0x7a, 0xba]);
    assert_eq!(&d[56..], &[0x2a, 0x9a, 0xc9, 0x4f, 0xa5, 0x4c, 0xa4, 0x9f]);
}

/// Lagrange coefficients at zero.
#[test]
fn lagrange_coefficients_of_small_sets() {
    let l = compute_lagrange_coefficients::<Scalar>(&[1, 2, 3]).unwrap();
    assert_eq!(l, vec![num(3), -num(3), num(1)]);
    let l = compute_lagrange_coefficients::<Scalar>(&[2, 1]).unwrap();
    assert_eq!(l, vec![-num(1), num(2)]);
    let l = compute_lagrange_coefficients::<Scalar>(&[1, 3]).unwrap();
    assert_eq!(l[0] + l[0], num(3));
    assert_eq!(l[1] + l[1], -num(1));
    let l = compute_lagrange_coefficients::<Scalar>(&[5]).unwrap();
    assert_eq!(l, vec![num(1)]);
    assert_eq!(
        compute_lagrange_coefficients::<Scalar>(&[1, 1]),
        Err(OsstError::LagrangeError)
    );
}

/// The wire key comes out of HKDF, and the public key is its multiple of the
/// X25519 base point.
#[test]
fn the_x25519_keys_of_a_seed() {
    let seed = [7u8; 32];
    let secret = x25519_secret_from_seed(&seed);
    let mut expected = [0u8; 32];
    Hkdf::<Sha256>::new(None, &seed)
        .expand(&frostito::sealed::X25519_DERIVE_INFO, &mut expected)
        .unwrap();
    assert_eq!(secret, expected);
    let public = PublicKey::from(&StaticSecret::from(expected));
    assert_eq!(x25519_public_from_seed(&seed), *public.as_bytes());
    assert_ne!(x25519_public_from_seed(&seed), secret);
}

/// A roster's transcript and prologue, from their parts.
#[test]
fn the_transcript_and_the_prologue_from_their_parts() {
    let session = [3u8; 32];
    let roster = SealedRoster::new(&[(9, [2; 32]), (4, [1; 32])], session).unwrap();
    let mut h = Sha256::new();
    h.update(b"frostito/sealed/transcript/v1");
    h.update(len8(2));
    h.update(4u32.to_le_bytes());
    h.update([1; 32]);
    h.update(9u32.to_le_bytes());
    h.update([2; 32]);
    h.update(session);
    let transcript: [u8; 32] = h.finalize().into();
    assert_eq!(roster.transcript(), transcript);
    let mut prologue = b"frostito/sealed/prologue/v1".to_vec();
    prologue.extend_from_slice(&transcript);
    prologue.extend_from_slice(&session);
    prologue.push(2);
    assert_eq!(roster.prologue(2), prologue);
    assert_eq!(*roster.public_key(9).unwrap(), [2; 32]);
    assert_eq!(roster.public_key(5), Err(OsstError::UnknownParticipant(5)));
}

#[test]
fn the_digests_from_their_parts() {
    let c = DealerCommitment::<P>::from_polynomial(5, &[num(3), num(4)]).unwrap();
    let mut bytes = 5u32.to_le_bytes().to_vec();
    bytes.extend_from_slice(&enc(3));
    bytes.extend_from_slice(&enc(4));
    assert_eq!(c.to_bytes(), bytes);

    let mut h = Sha512::new();
    h.update(b"frostito/sealed/commitment/v1");
    h.update(len8(bytes.len()));
    h.update(&bytes);
    assert_eq!(commitment_digest(&c), h.finalize()[..32]);

    let mut h = Sha256::new();
    h.update(b"frostito/sealed/ciphertext/v1");
    h.update(len8(3));
    h.update(b"abc");
    let digest: [u8; 32] = h.finalize().into();
    assert_eq!(sealed_ciphertext_digest(b"abc"), digest);

    // the echo digest does not depend on the order of arrival
    let d = DealerCommitment::<P>::from_polynomial(2, &[num(1), num(2)]).unwrap();
    let one = round1_echo_digest::<P>(7, 2, 2, &[c.clone(), d.clone()]);
    let two = round1_echo_digest::<P>(7, 2, 2, &[d, c]);
    assert_eq!(one.as_bytes(), two.as_bytes());
}

/// `ρ_i = H("frost-binding-v2" ‖ Y ‖ len ‖ msg ‖ len ‖ B ‖ i)`,
/// `R = Σ D_i + ρ_i·E_i`, `c = H("frost-challenge-v1" ‖ R ‖ Y ‖ msg)` and
/// `z_i = d_i + ρ_i·e_i + λ_i·c·s_i`.
#[test]
fn a_signature_from_its_parts() {
    let (s1, s2) = (num(11), num(12));
    // the line through (1, 11) and (2, 12) meets zero at 10
    let y = point(10);
    let y_bytes = OsstPoint::compress(&y);
    let nonces = |d: u32, e: u32| Nonces::from_scalars(num(d), num(e));
    let c1: SigningCommitments<P> = frost::commitments_of(1, &nonces(21, 31)).unwrap();
    let c2: SigningCommitments<P> = frost::commitments_of(2, &nonces(22, 32)).unwrap();
    let package = SigningPackage::new(b"msg".to_vec(), vec![c2, c1]).unwrap();
    assert_eq!(package.signer_indices(), vec![1, 2]);

    let encoded = frost::encode_commitments::<P>(&[c1, c2]);
    let rho = |i: u32| {
        scalar512(&[
            b"frost-binding-v2",
            &y_bytes,
            &len8(3),
            b"msg",
            &len8(encoded.len()),
            &encoded,
            &i.to_le_bytes(),
        ])
    };
    assert_eq!(package.binding_factor(1, &y), rho(1));
    assert_eq!(package.binding_factor(2, &y), rho(2));

    let r = point(21)
        .add(&point(31).mul_scalar(&rho(1)))
        .add(&point(22))
        .add(&point(32).mul_scalar(&rho(2)));
    assert_eq!(package.group_commitment(&y), r);
    let c = scalar512(&[b"frost-challenge-v1", &OsstPoint::compress(&r), &y_bytes, b"msg"]);
    assert_eq!(package.challenge(&r, &y), c);

    // λ_1 = 2 and λ_2 = -1
    let z1 = num(21) + rho(1) * num(31) + num(2) * c * s1;
    let z2 = num(22) + rho(2) * num(32) - c * s2;
    let share = |i: u32, s: Scalar| SecretShare::new(i, s).unwrap();
    let p1 = frost::sign(&package, nonces(21, 31), &share(1, s1), &y).ok().unwrap();
    let p2 = frost::sign(&package, nonces(22, 32), &share(2, s2), &y).ok().unwrap();
    assert_eq!(p1.response, z1);
    assert_eq!(p2.response, z2);

    let verifiers = BTreeMap::from([(1, point(11)), (2, point(12))]);
    let sig = frost::aggregate(&package, &[p2, p1], &y, Some(&verifiers)).ok().unwrap();
    assert_eq!(sig.r, r);
    assert_eq!(sig.z, z1 + z2);
    assert!(frost::verify_signature(&y, b"msg", &sig));
    assert!(!frost::verify_signature(&y, b"other", &sig));
    let bytes = sig.to_bytes();
    let again = Signature::<P>::from_bytes(&bytes).ok().unwrap();
    assert_eq!(again.r, r);
    assert_eq!(again.z, sig.z);
}

/// The layout of a share on the wire.
#[test]
fn a_signature_share_on_the_wire() {
    let s = SignatureShare { index: 258, response: num(7) };
    let bytes = s.to_bytes();
    assert_eq!(&bytes[..5], &[2, 1, 0, 0, 7]);
    assert_eq!(SignatureShare::<Scalar>::from_bytes(&bytes).ok().unwrap().response, num(7));
    let mut zero = bytes;
    zero[0] = 0;
    zero[1] = 0;
    assert_eq!(
        SignatureShare::<Scalar>::from_bytes(&zero).err(),
        Some(OsstError::InvalidIndex)
    );
    let mut wide = bytes;
    wide[4..].copy_from_slice(&[0xff; 32]);
    assert_eq!(
        SignatureShare::<Scalar>::from_bytes(&wide).err(),
        Some(OsstError::InvalidResponse)
    );
}

/// A proof of knowledge is a Schnorr signature by the constant term.
#[test]
fn a_proof_of_knowledge_from_its_parts() {
    let proof = ProofOfKnowledge::<P>::prove_with_nonce(3, 9, &num(5), &num(8));
    assert!(proof.verify(3, 9, &point(5)));
    assert!(!proof.verify(4, 9, &point(5)));
    assert!(!proof.verify(3, 10, &point(5)));
    assert!(!proof.verify(3, 9, &point(6)));
    assert_eq!(proof.r, point(8));
}

/// The round-0 hash of a holder's commitments.
#[test]
fn precommitments_separate_what_they_bind() {
    let c = |holder: u32, d: u32, e: u32, session: u8| InnerCommitments::<P> {
        holder_index: holder,
        session_id: [session; 32],
        hiding: point(d),
        binding: point(e),
    };
    let base = nested::inner_precommit(&c(1, 2, 3, 4));
    let mut h = Sha512::new();
    h.update(b"frostito-inner-precommit-v2");
    h.update(1u32.to_le_bytes());
    h.update([4; 32]);
    h.update(enc(2));
    h.update(enc(3));
    assert_eq!(base, h.finalize()[..32]);
    for other in [c(2, 2, 3, 4), c(1, 5, 3, 4), c(1, 2, 5, 4), c(1, 2, 3, 5)] {
        assert_ne!(base, nested::inner_precommit(&other));
    }
}

/// The bytes that a context has signed.
#[test]
fn a_signing_context_from_its_parts() {
    let ctx = SigningContext { epoch: 3, manifest_hash: [9; 32], message: b"pay" };
    let mut expected = len8(27).to_vec();
    expected.extend_from_slice(b"frostito/signing-context/v1");
    expected.extend_from_slice(&3u64.to_le_bytes());
    expected.extend_from_slice(&[9; 32]);
    expected.extend_from_slice(&len8(3));
    expected.extend_from_slice(b"pay");
    assert_eq!(ctx.encode(), expected);
}

/// Dealt values are those of the polynomial: 3 + 4x at 1, 2 and 5.
#[test]
fn dealt_values_are_those_of_the_polynomial() {
    let dealer = dkg::Dealer::<P>::from_polynomial(6, vec![num(3), num(4)]).unwrap();
    for (x, y) in [(1u32, 7u32), (2, 11), (5, 23)] {
        let sub = dealer.generate_subshare(x).ok().unwrap();
        assert_eq!(*sub.value(), num(y));
        assert_eq!(sub.dealer(), 6);
        assert_eq!(sub.player(), x);
        assert!(dealer.commitment().verify_subshare(x, &num(y)));
        assert!(!dealer.commitment().verify_subshare(x, &num(y + 1)));
        assert_eq!(dealer.commitment().evaluate_at(x).unwrap(), point(y));
    }
    assert_eq!(dealer.generate_subshare(0).err(), Some(OsstError::InvalidIndex));
    let split = nested::split_with_polynomial::<P>(&[num(3), num(4)], 3).ok().unwrap();
    assert_eq!(split.0, vec![(1, num(7)), (2, num(11)), (3, num(15))]);
    assert!(nested::verify_split_piece(&split.1, 2, &num(11)));
    assert!(!nested::verify_split_piece(&split.1, 2, &num(12)));
}
