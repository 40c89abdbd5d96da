# frostito

Threshold Schnorr for collective custody: distributed key generation, FROST and
nested FROST signing, and key-preserving resharing, written in Rust and verified
with Verus.

## What is proved

Scalars are modelled as residues modulo the group order and points as multiples of
the generator. Every function's contract says what it returns over that model, and
when it refuses, with which error. On top of the contracts stand laws, public proof
functions named `law_*`, among them:

- shares of key generation lie on one joint polynomial, any threshold of players
  reconstructs its secret, every player derives one group key, and the round state's
  key and verifying shares are those of the players (`dkg`);
- a reshare keeps the group key, whatever the dealer set, and the new shares lie on
  one polynomial (`reshare`);
- honest signature shares add up to a valid Schnorr signature, and so do verified
  ones (`frost`);
- the responses of an inner quorum add up to the response of the signer that it
  stands for (`nested`);
- a session of a holder signs at most once, and is spent also where signing fails
  (`signer`);
- a sealed sub-share opens to what was sealed; an opened plaintext whose indices are
  not those of its envelope is refused, and so are a replaced commitment and a dealer
  that the roster does not name (`sealed`);
- participants whose round 1 digests are equal hold one epoch, threshold, number of
  participants and set of commitments, where the hash has no collision (`dkg`);
- every byte string that is hashed or signed determines what it was made of
  (`context`, `dkg`, `frost`, `liveness`, `nested`, `sealed`, `zf`), and signature
  bytes that are read are the encoding of what was read (`frost`).

That Noise does not read a package under another round, roster, key or ciphertext
rests on the cipher, and is not proved here; that a package which it does not read is
refused is (`sealed`).

What the proofs rest on is behind small wrappers, each with a doc comment that says
what is claimed of the call: the arithmetic and encodings of the curve crates, SHA-2,
HKDF, X25519, Noise, and the binding factors and challenges of `frost-core`. Of a
random number nothing is claimed: a function that draws one has a sibling that takes
the value instead.

## Layout

- `src/curve` has the traits of a backend and its five implementations: ristretto255,
  secp256k1, pallas with either of two basepoints, and decaf377.
- `src/math.rs`, `shamir.rs`, `lagrange.rs`, `sets.rs` and `bytes.rs` hold the
  mathematics and the encodings that the protocols share.
- `src/dkg.rs`, `sealed.rs`, `reshare.rs`, `frost.rs`, `nested.rs`, `signer.rs`,
  `context.rs` and `liveness.rs` are the protocols.
- `src/zf.rs` drives `nested` from a `frost-core` signing package of ristretto255,
  secp256k1 or Taproot, and has the decaf377 suite.
- `app` implements outside traits over the library: the decaf377 ciphersuite for
  `frost-core`, standard errors, and secrets that are overwritten when dropped.

## What the caller owes

- **Reliable broadcast** for round 1 and the echo round. The echo round detects
  equivocation; it does not repair it.
- **Agreement on the dealer set** before any aggregation.
- **Durable spent-session state.** A holder that restores a snapshot and signs again
  with the same nonces gives up its share.
- **Erasure** of the secrets that the caller keeps. Those that a call consumes, such
  as nonces and sub-shares, it overwrites itself; others are overwritten by
  `zeroize`, or on drop inside `wipe::Wiped` of `app`.
