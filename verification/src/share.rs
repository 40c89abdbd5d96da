//! Secret shares.
use rand_core::OsRng;
use vstd::prelude::*;

use crate::curve::{OsstPoint, OsstScalar};
use crate::error::OsstError;
use crate::shamir::base_mul;
use crate::text::{decimal, put_decimal, put_text};

verus! {

/// A uniform scalar for any backend curve, from the operating system's
/// generator.
pub fn random_scalar<S: OsstScalar>(rng: &mut OsRng) -> (r: S)
    ensures
        0 <= r.val() < S::order(),
{
    let r = S::random(rng);
    proof {
        r.lemma_val();
    }
    r
}

/// A secret share.
///
/// This struct holds secret key material: call [`zeroize`](Self::zeroize) when
/// it is no longer needed.
pub struct SecretShare<S: OsstScalar> {
    /// Shareholder index (1-indexed, as per Shamir convention).
    pub index: u32,
    /// The secret scalar.
    scalar: S,
}

/// What a secret share holds.
pub ghost struct SecretShareView {
    /// Shareholder index.
    pub index: u32,
    /// The value of the secret scalar.
    pub secret: int,
}

impl<S: OsstScalar> View for SecretShare<S> {
    type V = SecretShareView;

    closed spec fn view(&self) -> SecretShareView {
        SecretShareView { index: self.index, secret: self.scalar.val() }
    }
}

impl<S: OsstScalar> Clone for SecretShare<S> {
    fn clone(&self) -> (r: Self)
        ensures
            r@ == self@,
    {
        SecretShare { index: self.index, scalar: self.scalar }
    }
}

impl<S: OsstScalar> SecretShare<S> {
    /// Constructs a share.
    ///
    /// # Errors
    ///
    /// [`OsstError::InvalidIndex`] if `index` is 0: Shamir indices are
    /// 1-indexed, and index 0 is the secret itself.
    pub fn new(index: u32, scalar: S) -> (r: Result<Self, OsstError>)
        ensures
            r is Ok <==> index != 0,
            r matches Ok(s) ==> s@ == (SecretShareView { index, secret: scalar.val() }),
            r matches Err(e) ==> e == OsstError::InvalidIndex,
    {
        if index == 0 {
            return Err(OsstError::InvalidIndex);
        }
        Ok(SecretShare { index, scalar })
    }

    /// Shareholder index.
    pub fn index(&self) -> (r: u32)
        ensures
            r == self@.index,
    {
        self.index
    }

    /// The secret scalar (use sparingly, avoid logging).
    pub fn scalar(&self) -> (r: &S)
        ensures
            r.val() == self@.secret,
    {
        &self.scalar
    }

    /// The public share: the generator times the secret.
    pub fn public_share<P: OsstPoint<Scalar = S>>(&self) -> (r: P)
        ensures
            r.log() == self@.secret,
    {
        base_mul::<P>(&self.scalar)
    }

    /// Text for debugging, without the secret.
    pub fn debug_text(&self) -> (r: String)
        ensures
            r@ == "SecretShare { index: "@ + decimal(self@.index as nat)
                + ", scalar: \"[REDACTED]\" }"@,
    {
        let mut out = String::new();
        put_text(&mut out, "SecretShare { index: ");
        put_decimal(&mut out, self.index as u64);
        put_text(&mut out, ", scalar: \"[REDACTED]\" }");
        out
    }

    /// Overwrites the secret with zero.
    pub fn zeroize(&mut self)
        ensures
            final(self)@ == (SecretShareView { index: old(self)@.index, secret: 0 }),
    {
        self.scalar.zeroize();
    }
}

/// Text for debugging gives nothing away: shares of one index have one text, whatever their
/// secrets are.
pub proof fn law_debug_text_hides_secret<S: OsstScalar>(
    a: SecretShare<S>,
    b: SecretShare<S>,
    text_a: String,
    text_b: String,
)
    requires
        a@.index == b@.index,
        call_ensures(SecretShare::<S>::debug_text, (&a,), text_a),
        call_ensures(SecretShare::<S>::debug_text, (&b,), text_b),
    ensures
        text_a@ == text_b@,
{
}

/// A share is what it was made of, and erasing it leaves zero: nothing of the secret is in
/// it any more, and the index stays.
pub proof fn law_share_holds_and_erases<S: OsstScalar>(
    index: u32,
    scalar: S,
    made: Result<SecretShare<S>, OsstError>,
    held: &S,
    share: &mut SecretShare<S>,
)
    requires
        call_ensures(SecretShare::<S>::new, (index, scalar), made),
        made is Ok ==> call_ensures(SecretShare::<S>::scalar, (&made->Ok_0,), held),
        call_ensures(SecretShare::<S>::zeroize, (share,), ()),
    ensures
        made is Ok <==> index != 0,
        made is Ok ==> held.val() == scalar.val() && made->Ok_0@.index == index,
        final(share)@.secret == 0,
        final(share)@.index == old(share)@.index,
{
}

} // verus!
