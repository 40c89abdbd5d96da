//! FROST(secp256k1, SHA-256) of `frost-core`.
use std::collections::BTreeMap;

use frost_core::keys::{self, IdentifierList, KeyPackage};
use frost_core::round1::{Nonce, SigningNonces};
use frost_core::{round2, Identifier, SigningPackage};
use frost_secp256k1::Secp256K1Sha256 as C;
use frostito::zf::inner_params_from_zf;
use frostito::{CurveScalar, Error};
use k256::Scalar;
use rand::rngs::OsRng;

/// A position of a secp256k1 group can be nested: the context recomputed from the
/// package gives the share that `frost-core` produces.
#[test]
fn the_secp256k1_context_gives_the_share_of_a_flat_signer() {
    let mut rng = OsRng;
    let (shares, pubkeys) =
        keys::generate_with_dealer::<C, _>(3, 2, IdentifierList::Default, &mut rng).unwrap();
    let packages: BTreeMap<_, _> = shares
        .into_iter()
        .map(|(id, s)| (id, KeyPackage::try_from(s).unwrap()))
        .collect();
    let mut scalars = BTreeMap::new();
    let mut nonces = BTreeMap::new();
    let mut commitments = BTreeMap::new();
    for i in [1u32, 3] {
        let id: Identifier<C> = (i as u16).try_into().unwrap();
        let d = <Scalar as CurveScalar>::random(&mut rng);
        let e = <Scalar as CurveScalar>::random(&mut rng);
        let n = SigningNonces::from_nonces(Nonce::<C>::from_scalar(d), Nonce::<C>::from_scalar(e));
        commitments.insert(id, *n.commitments());
        nonces.insert(i, n);
        scalars.insert(i, (d, e));
    }
    let package = SigningPackage::new(commitments, b"message");
    let bytes = package.serialize().unwrap();
    let key = pubkeys.verifying_key().serialize().unwrap();
    for i in [1u32, 3] {
        let id: Identifier<C> = (i as u16).try_into().unwrap();
        let share = round2::sign(&package, &nonces[&i], &packages[&id]).unwrap();
        let params = inner_params_from_zf::<C>(&bytes, &key, i).ok().unwrap();
        let (d, e) = scalars[&i];
        let secret = packages[&id].signing_share().to_scalar();
        let ours = CurveScalar::add(
            &d,
            &CurveScalar::add(
                &CurveScalar::mul(params.outer_binding(), &e),
                &CurveScalar::mul(
                    &CurveScalar::mul(params.outer_lambda(), params.outer_challenge()),
                    &secret,
                ),
            ),
        );
        assert_eq!(CurveScalar::to_bytes(&ours).to_vec(), share.serialize());
    }
    assert_eq!(inner_params_from_zf::<C>(&bytes, &key, 2).err(), Some(Error::InvalidIndex));
    assert_eq!(inner_params_from_zf::<C>(&bytes, &[0; 33], 1).err(), Some(Error::InvalidCommitment));
}
