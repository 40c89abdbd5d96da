//! Composable signing.
//!
//! Spent-nonce durability is a separate concern from producing a share: one
//! [`Signer`], and [`Layer`]s that wrap it. The outermost runs first, so a
//! [`Spend`] around a [`Holder`] records the session before any signing work
//! begins.
//!
//! A layer holds material that outlives the round. What varies per round goes in
//! the [`SignRequest`], including the message, which is fixed at construction by
//! [`raw`](SignRequest::raw) or [`bound`](SignRequest::bound): nothing
//! downstream can substitute another.
use vstd::prelude::*;

use crate::bytes::copy_vec;
use crate::context::SigningContext;
use crate::curve::{OsstPoint, OsstScalar};
use crate::error::OsstError;
use crate::nested::{
    inner_sign_v2, is_inner_answer, InnerNonces, InnerNoncesView, InnerSignatureShare,
    MemorySpentSessions, NestedSigningRequest, SpentSessions,
};
use crate::share::SecretShare;

verus! {

/// One signing request: everything that varies per round.
pub struct SignRequest<'a, P: OsstPoint> {
    /// This holder's nonces for the round. Consumed: a nonce pair answers once.
    pub nonces: InnerNonces<P::Scalar>,
    /// The outer round, as the coordinator published it.
    pub nested: &'a NestedSigningRequest<'a, P>,
    message: Vec<u8>,
}

/// What a signing request holds.
pub ghost struct RequestView<'a, P: OsstPoint> {
    /// The nonces.
    pub nonces: InnerNoncesView,
    /// The outer round.
    pub nested: NestedSigningRequest<'a, P>,
    /// The approved message.
    pub message: Seq<u8>,
}

impl<'a, P: OsstPoint> View for SignRequest<'a, P> {
    type V = RequestView<'a, P>;

    closed spec fn view(&self) -> RequestView<'a, P> {
        RequestView { nonces: self.nonces@, nested: *self.nested, message: self.message@ }
    }
}

impl<'a, P: OsstPoint> SignRequest<'a, P> {
    /// Signs `approved_message` as given.
    ///
    /// Use this only where the bytes are fixed by somebody else, such as a
    /// transaction sighash. Where this protocol chooses what gets signed, prefer
    /// [`bound`](Self::bound).
    pub fn raw(
        nonces: InnerNonces<P::Scalar>,
        approved_message: &'a [u8],
        nested: &'a NestedSigningRequest<'a, P>,
    ) -> (r: Self)
        ensures
            r@ == (RequestView::<'a, P> {
                nonces: nonces@,
                nested: *nested,
                message: approved_message@,
            }),
    {
        SignRequest { nonces, nested, message: copy_vec(approved_message) }
    }

    /// Signs the message with its epoch and manifest bound in.
    ///
    /// The coordinator's package must have been built over the same encoding, or
    /// signing fails with [`OsstError::MessageMismatch`].
    pub fn bound(
        nonces: InnerNonces<P::Scalar>,
        ctx: &SigningContext<'_>,
        nested: &'a NestedSigningRequest<'a, P>,
    ) -> (r: Self)
        ensures
            r@ == (RequestView::<'a, P> {
                nonces: nonces@,
                nested: *nested,
                message: ctx.encoding(),
            }),
    {
        SignRequest { nonces, nested, message: ctx.encode() }
    }

    /// The bytes this holder approved.
    pub fn approved_message(&self) -> (r: &[u8])
        ensures
            r@ == self@.message,
    {
        &self.message
    }

    /// This holder's nonces for the round.
    pub fn nonces(&self) -> (r: &InnerNonces<P::Scalar>)
        ensures
            r@ == self@.nonces,
    {
        &self.nonces
    }

    /// The outer round, as the coordinator published it.
    pub fn nested(&self) -> (r: &'a NestedSigningRequest<'a, P>)
        ensures
            *r == self@.nested,
    {
        self.nested
    }

    /// The parts: the nonces, the outer round and the approved message.
    pub fn into_parts(self) -> (r: (
        InnerNonces<P::Scalar>,
        &'a NestedSigningRequest<'a, P>,
        Vec<u8>,
    ))
        ensures
            r.0@ == self@.nonces,
            *r.1 == self@.nested,
            r.2@ == self@.message,
    {
        (self.nonces, self.nested, self.message)
    }

    /// The session and the holder of the nonces.
    fn session(&self) -> (r: ([u8; 32], u32))
        ensures
            r.0@ == self@.nonces.session,
            r.1 == self@.nonces.holder,
    {
        (*self.nonces.session(), self.nonces.holder())
    }
}

/// A stage that turns a [`SignRequest`] into a signature share.
pub trait Signer<P: OsstPoint> {
    /// How this signer answers a request: what it may return, and what it is
    /// afterwards.
    spec fn answers(
        &self,
        after: &Self,
        req: RequestView<'_, P>,
        r: Result<InnerSignatureShare<P::Scalar>, OsstError>,
    ) -> bool;

    /// Produces this holder's share, or refuses.
    fn sign(&mut self, req: SignRequest<'_, P>) -> (r: Result<
        InnerSignatureShare<P::Scalar>,
        OsstError,
    >)
        requires
            req@.nested.package.wf(),
        ensures
            old(self).answers(final(self), req@, r),
    ;
}

/// Wraps a [`Signer`] in one more concern.
pub trait Layer<S>: Sized {
    /// The wrapped signer.
    type Signer;

    /// `inner`, wrapped.
    spec fn layered(self, inner: S) -> Self::Signer;

    /// Wraps `inner`.
    fn layer(self, inner: S) -> (r: Self::Signer)
        ensures
            r == self.layered(inner),
    ;
}

/// Builder for a stack of layers, outermost applied last.
pub struct Stack<S>(S);

impl<S> Stack<S> {
    /// The signer built so far.
    pub closed spec fn held(&self) -> S {
        self.0
    }

    /// Starts from a base signer.
    pub fn new(inner: S) -> (r: Self)
        ensures
            r.held() == inner,
    {
        Stack(inner)
    }

    /// Wraps what is built so far. The layer added last runs first.
    pub fn layer<L: Layer<S>>(self, layer: L) -> (r: Stack<L::Signer>)
        ensures
            r.held() == layer.layered(self.held()),
    {
        Stack(layer.layer(self.0))
    }

    /// The assembled signer.
    pub fn into_inner(self) -> (r: S)
        ensures
            r == self.held(),
    {
        self.0
    }
}

// ---------------------------------------------------------------------------
// The base signer
// ---------------------------------------------------------------------------

/// The base signer: one inner holder's share and the group key it anchors to.
///
/// The key is the holder's own key material, never a coordinator's assertion,
/// which is why this type holds it rather than taking it per request.
pub struct Holder<'k, P: OsstPoint> {
    share: &'k SecretShare<P::Scalar>,
    verifying_key: &'k P,
}

impl<'k, P: OsstPoint> Holder<'k, P> {
    /// The share.
    pub closed spec fn secret_share(&self) -> SecretShare<P::Scalar> {
        *self.share
    }

    /// The group key.
    pub closed spec fn group_key(&self) -> int {
        self.verifying_key.log()
    }

    /// A signer for `share`, anchored to `verifying_key`.
    pub fn new(share: &'k SecretShare<P::Scalar>, verifying_key: &'k P) -> (r: Self)
        ensures
            r.secret_share() == *share,
            r.group_key() == verifying_key.log(),
    {
        Holder { share, verifying_key }
    }
}

impl<'k, P: OsstPoint> Signer<P> for Holder<'k, P> {
    /// It answers as [`inner_sign_v2`] does, and stays what it is.
    open spec fn answers(
        &self,
        after: &Self,
        req: RequestView<'_, P>,
        r: Result<InnerSignatureShare<P::Scalar>, OsstError>,
    ) -> bool {
        after == self && is_inner_answer::<P>(
            req.nonces,
            self.secret_share()@,
            self.group_key(),
            req.message,
            req.nested,
            r,
        )
    }

    fn sign(&mut self, req: SignRequest<'_, P>) -> (r: Result<
        InnerSignatureShare<P::Scalar>,
        OsstError,
    >) {
        inner_sign_v2::<P>(req.nonces, self.share, self.verifying_key, &req.message, req.nested)
    }
}

// ---------------------------------------------------------------------------
// Layers
// ---------------------------------------------------------------------------

/// Records the session as spent before the inner signer runs.
///
/// If recording fails, nothing signs: a holder that signs and then fails to
/// record has already given up the share.
pub struct Spend<T> {
    store: T,
}

impl<T: SpentSessions> Spend<T> {
    /// The store.
    pub closed spec fn held(&self) -> T {
        self.store
    }

    /// Spends into `store`.
    pub fn new(store: T) -> (r: Self)
        ensures
            r.held() == store,
    {
        Spend { store }
    }
}

/// [`Spend`] wrapped around a signer.
pub struct Spending<T, S> {
    store: T,
    inner: S,
}

impl<T: SpentSessions, S> Spending<T, S> {
    /// The store.
    pub closed spec fn held(&self) -> T {
        self.store
    }

    /// The wrapped signer.
    pub closed spec fn wrapped(&self) -> S {
        self.inner
    }

    /// The spent-session store, back out.
    pub fn into_store(self) -> (r: T)
        ensures
            r == self.held(),
    {
        self.store
    }

    /// The store, borrowed, to query whether a session is spent.
    pub fn store(&self) -> (r: &T)
        ensures
            *r == self.held(),
    {
        &self.store
    }
}

impl<T: SpentSessions, S> Layer<S> for Spend<T> {
    type Signer = Spending<T, S>;

    closed spec fn layered(self, inner: S) -> Spending<T, S> {
        Spending { store: self.store, inner }
    }

    fn layer(self, inner: S) -> (r: Spending<T, S>)
        ensures
            r.held() == self.held(),
            r.wrapped() == inner,
    {
        Spending { store: self.store, inner }
    }
}

impl<P: OsstPoint, T: SpentSessions, S: Signer<P>> Signer<P> for Spending<T, S> {
    /// The store is asked first, to record the session of the nonces. Where it
    /// refuses, its error is the answer and nothing reached the inner signer; otherwise
    /// the session is recorded, and the inner signer answered, whatever it answered. A
    /// spent session is refused, and none is forgotten.
    open spec fn answers(
        &self,
        after: &Self,
        req: RequestView<'_, P>,
        r: Result<InnerSignatureShare<P::Scalar>, OsstError>,
    ) -> bool {
        let session = (req.nonces.session, req.nonces.holder);
        &&& exists|recorded: Result<(), OsstError>|
            {
                &&& #[trigger] self.held().spends(
                    &after.held(),
                    req.nonces.session,
                    req.nonces.holder,
                    recorded,
                )
                &&& recorded matches Err(e) ==> after.wrapped() == self.wrapped() && r == Err::<
                    InnerSignatureShare<P::Scalar>,
                    OsstError,
                >(e)
                &&& recorded is Ok ==> after.held().spent() == self.held().spent().insert(session)
                    && self.wrapped().answers(&after.wrapped(), req, r)
            }
        &&& self.held().spent().contains(session) ==> after.wrapped() == self.wrapped() && r
            == Err::<InnerSignatureShare<P::Scalar>, OsstError>(OsstError::SessionSpent)
        &&& self.held().spent().subset_of(after.held().spent())
    }

    fn sign(&mut self, req: SignRequest<'_, P>) -> (r: Result<
        InnerSignatureShare<P::Scalar>,
        OsstError,
    >) {
        let (session_id, holder_index) = req.session();
        let ghost asked = req@.nonces;
        let recorded = self.store.spend(&session_id, holder_index);
        let r = match recorded {
            Ok(_) => self.inner.sign(req),
            Err(e) => {
                let mut req = req;
                req.nonces.zeroize();
                Err(e)
            },
        };
        assert(old(self).held().spends(&self.held(), asked.session, asked.holder, recorded));
        r
    }
}

/// A stack of a [`Spend`] around a signer is that signer behind the store.
pub proof fn law_stack_wraps<T: SpentSessions, S>(spend: Spend<T>, inner: S)
    ensures
        spend.layered(inner).held() == spend.held(),
        spend.layered(inner).wrapped() == inner,
{
}

/// A session reaches the inner signer at most once: unless the first answer was the
/// store's own refusal, the session was recorded, and every later request of the same
/// session and holder is refused without reaching the inner signer, whatever the first
/// answer was.
pub proof fn law_session_signs_once<P: OsstPoint, T: SpentSessions, S: Signer<P>>(
    before: Spending<T, S>,
    between: Spending<T, S>,
    after: Spending<T, S>,
    first: RequestView<'_, P>,
    first_answer: Result<InnerSignatureShare<P::Scalar>, OsstError>,
    second: RequestView<'_, P>,
    second_answer: Result<InnerSignatureShare<P::Scalar>, OsstError>,
)
    requires
        before.answers(&between, first, first_answer),
        first_answer matches Err(e) ==> !before.held().spends(
            &between.held(),
            first.nonces.session,
            first.nonces.holder,
            Err(e),
        ),
        second.nonces.session == first.nonces.session,
        second.nonces.holder == first.nonces.holder,
        between.answers(&after, second, second_answer),
    ensures
        before.wrapped().answers(&between.wrapped(), first, first_answer),
        between.held().spent() == before.held().spent().insert(
            (first.nonces.session, first.nonces.holder),
        ),
        second_answer == Err::<InnerSignatureShare<P::Scalar>, OsstError>(OsstError::SessionSpent),
        after.wrapped() == between.wrapped(),
{
}

/// Two requests of one session to a stack over a [`MemorySpentSessions`] that has not
/// seen it: the first is recorded and reaches the inner signer, the second does
/// neither, and the record holds the pair once.
pub proof fn law_memory_session<P: OsstPoint, S: Signer<P>>(
    before: Spending<MemorySpentSessions, S>,
    between: Spending<MemorySpentSessions, S>,
    after: Spending<MemorySpentSessions, S>,
    first: RequestView<'_, P>,
    first_answer: Result<InnerSignatureShare<P::Scalar>, OsstError>,
    second: RequestView<'_, P>,
    second_answer: Result<InnerSignatureShare<P::Scalar>, OsstError>,
)
    requires
        !before.held().entries().contains((first.nonces.session, first.nonces.holder)),
        before.answers(&between, first, first_answer),
        second.nonces.session == first.nonces.session,
        second.nonces.holder == first.nonces.holder,
        between.answers(&after, second, second_answer),
    ensures
        before.wrapped().answers(&between.wrapped(), first, first_answer),
        between.held().entries() == before.held().entries().push(
            (first.nonces.session, first.nonces.holder),
        ),
        second_answer == Err::<InnerSignatureShare<P::Scalar>, OsstError>(OsstError::SessionSpent),
        after.held().entries() == between.held().entries(),
        after.wrapped() == between.wrapped(),
{
    law_session_signs_once::<P, MemorySpentSessions, S>(
        before,
        between,
        after,
        first,
        first_answer,
        second,
        second_answer,
    );
    let entries = between.held().entries();
    assert(entries[entries.len() - 1] == (first.nonces.session, first.nonces.holder));
}

/// A request asks for what it was made for: the bytes as given, or the encoding of the
/// context, with the nonces and the outer round that it was made with.
pub proof fn law_request_holds_approval<'a, P: OsstPoint>(
    raw_nonces: InnerNonces<P::Scalar>,
    message: &'a [u8],
    nested: &'a NestedSigningRequest<'a, P>,
    raw: SignRequest<'a, P>,
    raw_approved: &[u8],
    bound_nonces: InnerNonces<P::Scalar>,
    ctx: SigningContext<'_>,
    bound: SignRequest<'a, P>,
    bound_approved: &[u8],
    encoded: Vec<u8>,
)
    requires
        call_ensures(SignRequest::<'a, P>::raw, (raw_nonces, message, nested), raw),
        call_ensures(SignRequest::<'a, P>::approved_message, (&raw,), raw_approved),
        call_ensures(SignRequest::<'a, P>::bound, (bound_nonces, &ctx, nested), bound),
        call_ensures(SignRequest::<'a, P>::approved_message, (&bound,), bound_approved),
        call_ensures(SigningContext::encode, (&ctx,), encoded),
    ensures
        raw_approved@ == message@,
        bound_approved@ == encoded@,
        raw@.nonces == raw_nonces@,
        bound@.nonces == bound_nonces@,
        raw@.nested == *nested,
        bound@.nested == *nested,
{
}

/// A holder answers for itself: what it answers is what its share and its key answer, for the
/// request's own nonces, message and outer round, and nothing of the holder changes.
pub proof fn law_holder_answers_for_itself<'k, P: OsstPoint>(
    share: SecretShare<P::Scalar>,
    key: P,
    holder: Holder<'k, P>,
    after: Holder<'k, P>,
    nonces: InnerNonces<P::Scalar>,
    approved: &[u8],
    request: NestedSigningRequest<'_, P>,
    answer: Result<InnerSignatureShare<P::Scalar>, OsstError>,
    returned: Result<InnerSignatureShare<P::Scalar>, OsstError>,
)
    requires
        request.package.wf(),
        holder.secret_share()@ == share@,
        holder.group_key() == key.log(),
        holder.answers(
            &after,
            RequestView { nonces: nonces@, nested: request, message: approved@ },
            answer,
        ),
        call_ensures(
            inner_sign_v2::<P>,
            (nonces, &share, &key, approved, &request),
            returned,
        ),
    ensures
        answer is Ok <==> returned is Ok,
        answer matches Ok(s) ==> s.holder_index == returned->Ok_0.holder_index && s.response.val()
            == returned->Ok_0.response.val(),
        answer matches Err(e) ==> e == returned->Err_0,
{
}

/// A stack is built from the inside: a holder behind a store is that holder, with its share
/// and its key, behind that store.
pub proof fn law_stack_is_built<'k, P: OsstPoint, T: SpentSessions>(
    share: &'k SecretShare<P::Scalar>,
    key: &'k P,
    holder: Holder<'k, P>,
    inner: Stack<Holder<'k, P>>,
    store: T,
    spend: Spend<T>,
    outer: Stack<Spending<T, Holder<'k, P>>>,
    signer: Spending<T, Holder<'k, P>>,
)
    requires
        call_ensures(Holder::<'k, P>::new, (share, key), holder),
        call_ensures(Stack::<Holder<'k, P>>::new, (holder,), inner),
        call_ensures(Spend::<T>::new, (store,), spend),
        call_ensures(
            Stack::<Holder<'k, P>>::layer::<Spend<T>>,
            (inner, spend),
            outer,
        ),
        call_ensures(
            Stack::<Spending<T, Holder<'k, P>>>::into_inner,
            (outer,),
            signer,
        ),
    ensures
        signer.held() == store,
        signer.wrapped() == holder,
        signer.wrapped().secret_share() == *share,
        signer.wrapped().group_key() == key.log(),
{
}

} // verus!
