//! Threshold Schnorr for collective custody.
//!
//! - [`dkg`]: distributed key generation over an agreed dealer set, with
//!   complaints and disqualification.
//! - [`sealed`]: the encrypted, authenticated second round of key generation.
//! - [`frost`]: two-round threshold signing.
//! - [`nested`]: one outer FROST position held by an inner threshold group.
//! - [`signer`]: composable signing, with spent sessions recorded first.
//! - [`reshare`]: a new custodian set under the same group key.
//! - [`context`]: signed bytes bound to an epoch and a manifest.
//! - [`liveness`]: contributions that prove a dealer alive.
//! - [`zf`]: the bridge to `frost-core`, and the decaf377 suite.
//! - [`curve`]: the traits of a backend, and the backends.
//!
//! A scalar is its residue, [`OsstScalar::val`], and a point its multiple of the
//! generator, [`OsstPoint::log`]; contracts are stated over these. The order of a
//! group is a prime, so its scalars are a field: [`OsstScalar::one`] says so, and
//! the laws take it as [`math::is_field`].
pub mod bytes;
pub mod context;
pub mod curve;
pub mod dkg;
mod error;
pub mod frost;
pub mod hash;
pub mod hex;
pub mod lagrange;
pub mod liveness;
pub mod math;
pub mod nested;
pub mod reshare;
pub mod schnorr;
pub mod sealed;
pub mod sets;
pub mod shamir;
mod share;
pub mod signer;
pub mod text;
pub mod zf;

pub use context::{SigningContext, SIGNING_CONTEXT_DOMAIN};
pub use curve::decaf::Decaf377Curve;
pub use curve::pallas::{OrchardSpendAuthCurve, PallasCurve};
pub use curve::ristretto::Ristretto255;
pub use curve::secp256k1::Secp256k1Curve;
pub use curve::{Curve, CurvePoint, CurveScalar, OsstCurve, OsstPoint, OsstScalar};
pub use error::OsstError;
pub use error::OsstError as Error;
pub use lagrange::compute_lagrange_coefficients;
pub use share::{random_scalar, SecretShare};
