//! Error types.
use vstd::prelude::*;

use crate::text::{decimal, law_decimal_injective, put_decimal, put_text};

verus! {

/// Errors that can occur during threshold operations.
#[allow(inconsistent_fields)]
#[derive(Debug, Clone, Copy, PartialEq, Eq, Structural)]
pub enum OsstError {
    /// No contributions provided.
    EmptyContributions,
    /// Not enough contributions for the threshold.
    InsufficientContributions { got: usize, need: usize },
    /// Duplicate custodian index.
    DuplicateIndex(u32),
    /// Challenge hash resulted in zero (astronomically unlikely).
    ZeroChallenge,
    /// Invalid commitment point (not on the curve).
    InvalidCommitment,
    /// Invalid response scalar (not canonical).
    InvalidResponse,
    /// Lagrange computation failed (duplicate indices).
    LagrangeError,
    /// Index out of valid range (must be greater than 0).
    InvalidIndex,
    /// Sub-share from a dealer outside the agreed dealer set.
    UnexpectedDealer(u32),
    /// Dealers committed to different new thresholds.
    ThresholdMismatch { expected: u32, got: u32 },
    /// The signing package's message is not the message the signer approved.
    MessageMismatch,
    /// A commitment in the package is not the one produced in the local round.
    UnexpectedCommitment,
    /// A coordinator-supplied outer context does not match the locally
    /// recomputed one (binding factor, challenge or Lagrange coefficient).
    ChallengeMismatch,
    /// Two rounds of the same protocol were mixed (session id mismatch).
    SessionMismatch,
    /// A dealer's proof of knowledge of its constant term did not verify. Names
    /// the dealer to disqualify.
    InvalidProofOfKnowledge(u32),
    /// A dealer's sub-share did not verify against its commitment.
    InvalidSubShare(u32),
    /// The ceremony cannot continue: too few dealers remain after
    /// disqualification.
    DkgAborted { qualified: usize, need: usize },
    /// A sealed package did not open. Carries the dealer it claimed to come
    /// from; which of wrong sender, wrong recipient, wrong ceremony or tampering
    /// caused it is deliberately not reported.
    SealedOpenFailed(u32),
    /// A participant is not on the sealed roster.
    UnknownParticipant(u32),
    /// An index of a coordinator-supplied quorum has no round-1 commitment in
    /// the set the nested aggregate was formed over.
    UnknownQuorumMember(u32),
    /// Two participants published different views of the same round-1
    /// commitment set: a dealer equivocated, or the broadcast is not reliable.
    EchoMismatch,
    /// A revealed inner commitment has no matching round-0 precommitment, or
    /// does not match the one it claims.
    PrecommitMismatch(u32),
    /// The session and holder have already produced a share. Signing again
    /// would be nonce reuse.
    SessionSpent,
    /// A complaint's signature did not verify under the accuser's identity key,
    /// or it names a ceremony other than this one.
    InvalidComplaint,
}

impl OsstError {
    /// The text of the error.
    pub open spec fn text(self) -> Seq<char> {
        match self {
            OsstError::EmptyContributions => "no contributions provided"@,
            OsstError::InsufficientContributions { got, need } => {
                "insufficient contributions: got "@ + decimal(got as nat) + ", need "@
                    + decimal(need as nat)
            },
            OsstError::DuplicateIndex(idx) => "duplicate custodian index: "@ + decimal(idx as nat),
            OsstError::ZeroChallenge => "challenge hash is zero"@,
            OsstError::InvalidCommitment => "invalid commitment point"@,
            OsstError::InvalidResponse => "invalid response scalar"@,
            OsstError::LagrangeError => "lagrange coefficient computation failed"@,
            OsstError::InvalidIndex => "index must be greater than 0"@,
            OsstError::UnexpectedDealer(idx) => {
                "dealer "@ + decimal(idx as nat) + " is not in the agreed dealer set"@
            },
            OsstError::ThresholdMismatch { expected, got } => {
                "dealer committed to threshold "@ + decimal(got as nat) + ", expected "@
                    + decimal(expected as nat)
            },
            OsstError::MessageMismatch => "signing package message is not the approved message"@,
            OsstError::UnexpectedCommitment => "commitment is not the one produced in this round"@,
            OsstError::ChallengeMismatch => "coordinator-supplied outer context does not match"@,
            OsstError::SessionMismatch => "session id mismatch"@,
            OsstError::InvalidProofOfKnowledge(idx) => {
                "dealer "@ + decimal(idx as nat) + " published an invalid proof of knowledge"@
            },
            OsstError::InvalidSubShare(idx) => {
                "dealer "@ + decimal(idx as nat) + " sent an invalid sub-share"@
            },
            OsstError::DkgAborted { qualified, need } => {
                "dkg aborted: "@ + decimal(qualified as nat) + " qualified dealers remain, need "@
                    + decimal(need as nat)
            },
            OsstError::SealedOpenFailed(idx) => {
                "sealed package from dealer "@ + decimal(idx as nat) + " did not open"@
            },
            OsstError::UnknownParticipant(idx) => {
                "participant "@ + decimal(idx as nat) + " is not on the roster"@
            },
            OsstError::UnknownQuorumMember(idx) => {
                "quorum member "@ + decimal(idx as nat) + " has no round-1 commitment"@
            },
            OsstError::EchoMismatch => "round-1 commitment sets disagree"@,
            OsstError::PrecommitMismatch(idx) => {
                "holder "@ + decimal(idx as nat)
                    + " revealed a commitment it did not precommit to"@
            },
            OsstError::SessionSpent => "this session has already produced a share"@,
            OsstError::InvalidComplaint => "complaint did not verify"@,
        }
    }

    /// The text of the error, for people.
    pub fn message(&self) -> (r: String)
        ensures
            r@ == self.text(),
    {
        let mut out = String::new();
        match self {
            OsstError::EmptyContributions => {
                put_text(&mut out, "no contributions provided");
            },
            OsstError::InsufficientContributions { got, need } => {
                put_text(&mut out, "insufficient contributions: got ");
                put_decimal(&mut out, *got as u64);
                put_text(&mut out, ", need ");
                put_decimal(&mut out, *need as u64);
            },
            OsstError::DuplicateIndex(idx) => {
                put_text(&mut out, "duplicate custodian index: ");
                put_decimal(&mut out, *idx as u64);
            },
            OsstError::ZeroChallenge => {
                put_text(&mut out, "challenge hash is zero");
            },
            OsstError::InvalidCommitment => {
                put_text(&mut out, "invalid commitment point");
            },
            OsstError::InvalidResponse => {
                put_text(&mut out, "invalid response scalar");
            },
            OsstError::LagrangeError => {
                put_text(&mut out, "lagrange coefficient computation failed");
            },
            OsstError::InvalidIndex => {
                put_text(&mut out, "index must be greater than 0");
            },
            OsstError::UnexpectedDealer(idx) => {
                put_text(&mut out, "dealer ");
                put_decimal(&mut out, *idx as u64);
                put_text(&mut out, " is not in the agreed dealer set");
            },
            OsstError::ThresholdMismatch { expected, got } => {
                put_text(&mut out, "dealer committed to threshold ");
                put_decimal(&mut out, *got as u64);
                put_text(&mut out, ", expected ");
                put_decimal(&mut out, *expected as u64);
            },
            OsstError::MessageMismatch => {
                put_text(&mut out, "signing package message is not the approved message");
            },
            OsstError::UnexpectedCommitment => {
                put_text(&mut out, "commitment is not the one produced in this round");
            },
            OsstError::ChallengeMismatch => {
                put_text(&mut out, "coordinator-supplied outer context does not match");
            },
            OsstError::SessionMismatch => {
                put_text(&mut out, "session id mismatch");
            },
            OsstError::InvalidProofOfKnowledge(idx) => {
                put_text(&mut out, "dealer ");
                put_decimal(&mut out, *idx as u64);
                put_text(&mut out, " published an invalid proof of knowledge");
            },
            OsstError::InvalidSubShare(idx) => {
                put_text(&mut out, "dealer ");
                put_decimal(&mut out, *idx as u64);
                put_text(&mut out, " sent an invalid sub-share");
            },
            OsstError::DkgAborted { qualified, need } => {
                put_text(&mut out, "dkg aborted: ");
                put_decimal(&mut out, *qualified as u64);
                put_text(&mut out, " qualified dealers remain, need ");
                put_decimal(&mut out, *need as u64);
            },
            OsstError::SealedOpenFailed(idx) => {
                put_text(&mut out, "sealed package from dealer ");
                put_decimal(&mut out, *idx as u64);
                put_text(&mut out, " did not open");
            },
            OsstError::UnknownParticipant(idx) => {
                put_text(&mut out, "participant ");
                put_decimal(&mut out, *idx as u64);
                put_text(&mut out, " is not on the roster");
            },
            OsstError::UnknownQuorumMember(idx) => {
                put_text(&mut out, "quorum member ");
                put_decimal(&mut out, *idx as u64);
                put_text(&mut out, " has no round-1 commitment");
            },
            OsstError::EchoMismatch => {
                put_text(&mut out, "round-1 commitment sets disagree");
            },
            OsstError::PrecommitMismatch(idx) => {
                put_text(&mut out, "holder ");
                put_decimal(&mut out, *idx as u64);
                put_text(&mut out, " revealed a commitment it did not precommit to");
            },
            OsstError::SessionSpent => {
                put_text(&mut out, "this session has already produced a share");
            },
            OsstError::InvalidComplaint => {
                put_text(&mut out, "complaint did not verify");
            },
        }
        assert(out@ =~= self.text());
        out
    }
}

/// Texts that differ in a number alone are equal exactly where the numbers are.
proof fn lemma_named(head: Seq<char>, a: nat, b: nat, tail: Seq<char>)
    ensures
        head + decimal(a) + tail == head + decimal(b) + tail <==> a == b,
{
    let (x, y) = (head + decimal(a) + tail, head + decimal(b) + tail);
    law_decimal_injective(a, b);
    if x == y {
        let (i, j) = (head.len() as int, x.len() - tail.len());
        assert(x.subrange(i, j) =~= decimal(a));
        assert(y.subrange(i, j) =~= decimal(b));
    }
}

/// The text of an error names whom the error names: two errors of one kind have one text
/// exactly where they name one index.
pub proof fn law_text_names_index(a: u32, b: u32)
    ensures
        OsstError::DuplicateIndex(a).text() == OsstError::DuplicateIndex(b).text() <==> a == b,
        OsstError::UnexpectedDealer(a).text() == OsstError::UnexpectedDealer(b).text() <==> a == b,
        OsstError::InvalidProofOfKnowledge(a).text() == OsstError::InvalidProofOfKnowledge(b).text()
            <==> a == b,
        OsstError::InvalidSubShare(a).text() == OsstError::InvalidSubShare(b).text() <==> a == b,
        OsstError::SealedOpenFailed(a).text() == OsstError::SealedOpenFailed(b).text() <==> a == b,
        OsstError::UnknownParticipant(a).text() == OsstError::UnknownParticipant(b).text() <==> a
            == b,
        OsstError::UnknownQuorumMember(a).text() == OsstError::UnknownQuorumMember(b).text() <==> a
            == b,
        OsstError::PrecommitMismatch(a).text() == OsstError::PrecommitMismatch(b).text() <==> a
            == b,
{
    let (x, y) = (a as nat, b as nat);
    let none = Seq::<char>::empty();
    let head = "duplicate custodian index: "@;
    lemma_named(head, x, y, none);
    assert(head + decimal(x) + none =~= head + decimal(x));
    assert(head + decimal(y) + none =~= head + decimal(y));
    lemma_named("dealer "@, x, y, " is not in the agreed dealer set"@);
    lemma_named("dealer "@, x, y, " published an invalid proof of knowledge"@);
    lemma_named("dealer "@, x, y, " sent an invalid sub-share"@);
    lemma_named("sealed package from dealer "@, x, y, " did not open"@);
    lemma_named("participant "@, x, y, " is not on the roster"@);
    lemma_named("quorum member "@, x, y, " has no round-1 commitment"@);
    lemma_named("holder "@, x, y, " revealed a commitment it did not precommit to"@);
}

} // verus!
