//! Confidential, authenticated delivery of the sub-shares of key generation.
//!
//! A dealer's polynomial is pinned down by as many points as the threshold, so
//! an observer of round 2 in the clear holds the group key. Here each sub-share
//! travels in a `Noise_K_25519_ChaChaPoly_BLAKE2s` message: both parties' static
//! keys are known in advance, so the handshake is a single message.
//!
//! A package is bound to its recipient, whose static key opens it; to its
//! sender, whose static key is in the key schedule; to the ceremony, through the
//! roster, session and round in the prologue; and to the dealer's commitment,
//! whose digest is inside the plaintext.
//!
//! This is not a transport: a deployment still needs to route a package to its
//! recipient, and a signed roster so that the static keys are the right ones.
use hkdf::Hkdf;
use sha2::Sha256;
use vstd::prelude::*;

use crate::bytes::{
    bytes_eq, get_array32, le_bytes, lemma_byte_bounds, lemma_concat_split, lemma_le_bytes,
    lemma_le_bytes_injective, prefixed, put_len, put_slice, put_u32,
};
use crate::curve::{logs, ord, OsstPoint, OsstScalar};
use crate::dkg::{
    self, commitment_digest_value, is_bad_subshare, AgreedRound1, AgreedView, BadSubShareEvidence,
    ComplaintVerdict,
};
use crate::error::OsstError;
use crate::hash::{sha256, sha256_digest};
use crate::math::{lemma_eqm_mod, poly};
use crate::reshare::{
    dealt, lemma_subshare_bytes, parse_subshare, subshare_bytes, CommitmentView,
    DealerCommitment, SubShare, SubShareView,
};
use crate::sets::{ascending, index_set, is_index_set, least_repeated};
use crate::text::{ascii, decimal, put_decimal, put_text};

pub use crate::dkg::{commitment_digest, COMMITMENT_DIGEST_DOMAIN};

verus! {

/// The Noise pattern.
pub const NOISE_PATTERN: &'static str = "Noise_K_25519_ChaChaPoly_BLAKE2s";

/// Separation tag for deriving a participant's X25519 static key from its
/// identity seed: `frostito/sealed/x25519/v1`.
pub const X25519_DERIVE_INFO: [u8; 25] = [
    102u8, 114u8, 111u8, 115u8, 116u8, 105u8, 116u8, 111u8, 47u8, 115u8, 101u8, 97u8, 108u8, 101u8,
    100u8, 47u8, 120u8, 50u8, 53u8, 53u8, 49u8, 57u8, 47u8, 118u8, 49u8,
];

/// Domain of the ceremony transcript: `frostito/sealed/transcript/v1`.
pub const TRANSCRIPT_DOMAIN: [u8; 29] = [
    102u8, 114u8, 111u8, 115u8, 116u8, 105u8, 116u8, 111u8, 47u8, 115u8, 101u8, 97u8, 108u8, 101u8,
    100u8, 47u8, 116u8, 114u8, 97u8, 110u8, 115u8, 99u8, 114u8, 105u8, 112u8, 116u8, 47u8, 118u8,
    49u8,
];

/// Domain of the Noise prologue: `frostito/sealed/prologue/v1`.
pub const PROLOGUE_DOMAIN: [u8; 27] = [
    102u8, 114u8, 111u8, 115u8, 116u8, 105u8, 116u8, 111u8, 47u8, 115u8, 101u8, 97u8, 108u8, 101u8,
    100u8, 47u8, 112u8, 114u8, 111u8, 108u8, 111u8, 103u8, 117u8, 101u8, 47u8, 118u8, 49u8,
];

/// Domain of the sealed-ciphertext digest: `frostito/sealed/ciphertext/v1`.
pub const SEALED_DIGEST_DOMAIN: [u8; 29] = [
    102u8, 114u8, 111u8, 115u8, 116u8, 105u8, 116u8, 111u8, 47u8, 115u8, 101u8, 97u8, 108u8, 101u8,
    100u8, 47u8, 99u8, 105u8, 112u8, 104u8, 101u8, 114u8, 116u8, 101u8, 120u8, 116u8, 47u8, 118u8,
    49u8,
];

// ---------------------------------------------------------------------------
// Static keys
// ---------------------------------------------------------------------------

/// The thirty-two bytes that HKDF-SHA256 without a salt derives.
pub uninterp spec fn hkdf_sha256_bytes(ikm: Seq<u8>, info: Seq<u8>) -> Seq<u8>;

/// `hkdf::Hkdf::<Sha256>::new` without a salt, then `Hkdf::expand` to thirty-two
/// bytes: a length that HKDF-SHA256 allows. What is derived is a function of the
/// key material and the info alone.
#[verifier::external_body]
fn hkdf_sha256(ikm: &[u8], info: &[u8]) -> (r: [u8; 32])
    ensures
        r@ == hkdf_sha256_bytes(ikm@, info@),
{
    let mut out = [0u8; 32];
    Hkdf::<Sha256>::new(None, ikm).expand(info, &mut out).expect("a valid HKDF-SHA256 length");
    out
}

/// The X25519 public key of a secret.
pub uninterp spec fn x25519_public_key(secret: Seq<u8>) -> Seq<u8>;

/// `x25519_dalek::PublicKey::from` a `StaticSecret`: the public key is a
/// function of the secret alone.
#[verifier::external_body]
fn x25519_public(secret: &[u8; 32]) -> (r: [u8; 32])
    ensures
        r@ == x25519_public_key(secret@),
{
    let secret = x25519_dalek::StaticSecret::from(*secret);
    x25519_dalek::PublicKey::from(&secret).to_bytes()
}

/// Derives a participant's X25519 static secret from its identity seed.
///
/// Deriving rather than storing means that no new key has to be distributed. The
/// signing key is the seed and the decryption key is derived from it: they share
/// an ancestor, not an exponent.
pub fn x25519_secret_from_seed(seed: &[u8; 32]) -> (r: [u8; 32])
    ensures
        r@ == hkdf_sha256_bytes(seed@, X25519_DERIVE_INFO@),
{
    hkdf_sha256(seed, &X25519_DERIVE_INFO)
}

/// The X25519 public key a participant advertises in round 1.
pub fn x25519_public_from_seed(seed: &[u8; 32]) -> (r: [u8; 32])
    ensures
        r@ == x25519_public_key(hkdf_sha256_bytes(seed@, X25519_DERIVE_INFO@)),
{
    let secret = x25519_secret_from_seed(seed);
    x25519_public(&secret)
}

// ---------------------------------------------------------------------------
// The roster
// ---------------------------------------------------------------------------

/// The participant set of one ceremony: every participant's index and static
/// key, and the session id.
///
/// Fixed when round 1 closes and identical on every node. It is hashed into the
/// Noise prologue, so two nodes that disagree about who is in the ceremony, or
/// about which ceremony this is, cannot exchange a sealed package at all.
#[derive(Clone, Debug, PartialEq, Eq)]
pub struct SealedRoster {
    participants: Vec<(u32, [u8; 32])>,
    session_id: [u8; 32],
}

/// The indices of some participants.
pub open spec fn roster_indices(ps: Seq<(u32, [u8; 32])>) -> Seq<u32> {
    Seq::new(ps.len(), |i: int| ps[i].0)
}

/// Why participants make no roster: there is none, one has index zero, or an
/// index occurs twice.
pub open spec fn roster_error(ps: Seq<(u32, [u8; 32])>, e: OsstError) -> bool {
    if ps.len() == 0 {
        e == OsstError::EmptyContributions
    } else if roster_indices(ps).contains(0) {
        e == OsstError::InvalidIndex
    } else {
        e matches OsstError::DuplicateIndex(d) && least_repeated(roster_indices(ps), d)
    }
}

/// Participants, each in four bytes and its key.
pub open spec fn roster_entries(ps: Seq<(u32, [u8; 32])>) -> Seq<u8>
    decreases ps.len(),
{
    if ps.len() == 0 {
        Seq::empty()
    } else {
        roster_entries(ps.drop_last()) + (le_bytes(ps.last().0 as int, 4) + ps.last().1@)
    }
}

/// The input of the transcript's hash: the domain, the number of participants,
/// the participants and the session.
pub open spec fn transcript_input(ps: Seq<(u32, [u8; 32])>, session: Seq<u8>) -> Seq<u8> {
    TRANSCRIPT_DOMAIN@ + (le_bytes(ps.len() as int, 8) + (roster_entries(ps) + session))
}

/// The Noise prologue: the domain, the transcript, the session and the round.
pub open spec fn prologue_bytes(ps: Seq<(u32, [u8; 32])>, session: Seq<u8>, round: u8) -> Seq<u8> {
    PROLOGUE_DOMAIN@ + (sha256_digest(transcript_input(ps, session)) + (session + seq![round]))
}

/// The key of a participant.
pub open spec fn roster_key(ps: Seq<(u32, [u8; 32])>, index: u32) -> Seq<u8> {
    ps[roster_indices(ps).index_of(index)].1@
}

impl SealedRoster {
    /// The participants.
    pub closed spec fn list(&self) -> Seq<(u32, [u8; 32])> {
        self.participants@
    }

    /// The session.
    pub closed spec fn session(&self) -> Seq<u8> {
        self.session_id@
    }

    /// The participants ascend by index, and none has index zero.
    pub open spec fn wf(&self) -> bool {
        &&& ascending(roster_indices(self.list()))
        &&& is_index_set(roster_indices(self.list()))
        &&& self.session().len() == 32
    }

    /// A participant is on the roster.
    pub open spec fn has(&self, index: u32) -> bool {
        roster_indices(self.list()).contains(index)
    }

    /// A participant's key.
    pub open spec fn key(&self, index: u32) -> Seq<u8> {
        roster_key(self.list(), index)
    }

    /// The prologue of a round.
    pub open spec fn prologue_of(&self, round: u8) -> Seq<u8> {
        prologue_bytes(self.list(), self.session(), round)
    }

    /// Builds a roster. Participants are put in ascending order of index, so the
    /// transcript does not depend on the order of arrival.
    ///
    /// # Errors
    ///
    /// [`OsstError::EmptyContributions`] for an empty set,
    /// [`OsstError::InvalidIndex`] for index 0, and
    /// [`OsstError::DuplicateIndex`] for a repeated index.
    pub fn new(participants: &[(u32, [u8; 32])], session_id: [u8; 32]) -> (r: Result<
        Self,
        OsstError,
    >)
        ensures
            r is Ok <==> is_index_set(roster_indices(participants@)),
            r matches Ok(roster) ==> roster.wf() && roster.session() == session_id@
                && roster.list().len() == participants@.len() && forall|p: (u32, [u8; 32])|
                roster.list().contains(p) <==> #[trigger] participants@.contains(p),
            r matches Err(e) ==> roster_error(participants@, e),
    {
        if participants.len() == 0 {
            return Err(OsstError::EmptyContributions);
        }
        let ghost ids = roster_indices(participants@);
        let mut indices: Vec<u32> = Vec::new();
        let mut i: usize = 0;
        while i < participants.len()
            invariant
                i <= participants@.len(),
                ids == roster_indices(participants@),
                indices@ == ids.subrange(0, i as int),
                forall|j: int| 0 <= j < i ==> ids[j] != 0,
            decreases participants@.len() - i,
        {
            let k = participants[i].0;
            if k == 0 {
                assert(ids[i as int] == 0);
                assert(ids.contains(0));
                return Err(OsstError::InvalidIndex);
            }
            indices.push(k);
            assert(indices@ =~= ids.subrange(0, i as int + 1));
            i += 1;
        }
        assert(indices@ =~= ids);
        let sorted = match index_set(&indices) {
            Ok(v) => v,
            Err(e) => return Err(e),
        };
        let mut out: Vec<(u32, [u8; 32])> = Vec::new();
        let mut j: usize = 0;
        proof {
            crate::sets::lemma_same_length(sorted@, ids);
        }
        while j < sorted.len()
            invariant
                j <= sorted@.len(),
                sorted@.len() == participants@.len(),
                ids == roster_indices(participants@),
                ids.no_duplicates(),
                forall|d: u32| sorted@.contains(d) <==> #[trigger] ids.contains(d),
                out@.len() == j,
                forall|k: int|
                    0 <= k < j ==> (#[trigger] out@[k]).0 == sorted@[k] && participants@.contains(
                        out@[k],
                    ),
            decreases sorted@.len() - j,
        {
            assert(sorted@.contains(sorted@[j as int]));
            let at = position_of(participants, sorted[j]);
            out.push(participants[at]);
            assert(participants@.contains(participants@[at as int]));
            j += 1;
        }
        let roster = SealedRoster { participants: out, session_id };
        proof {
            assert(roster_indices(roster.list()) =~= sorted@);
            assert forall|p: (u32, [u8; 32])|
                roster.list().contains(p) <==> #[trigger] participants@.contains(p) by {
                if participants@.contains(p) {
                    let a = choose|a: int| 0 <= a < participants@.len() && participants@[a] == p;
                    assert(ids[a] == p.0);
                    assert(ids.contains(p.0));
                    let k = choose|k: int| 0 <= k < sorted@.len() && sorted@[k] == p.0;
                    let q = roster.list()[k];
                    assert(participants@.contains(q));
                    let b = choose|b: int| 0 <= b < participants@.len() && participants@[b] == q;
                    assert(ids[b] == q.0);
                    assert(a == b);
                }
            }
        }
        Ok(roster)
    }

    /// Participants, in ascending order of index.
    pub fn participants(&self) -> (r: &[(u32, [u8; 32])])
        ensures
            r@ == self.list(),
    {
        &self.participants
    }

    /// The ceremony's session id.
    pub fn session_id(&self) -> (r: &[u8; 32])
        ensures
            r@ == self.session(),
    {
        &self.session_id
    }

    /// A participant's advertised static key.
    ///
    /// # Errors
    ///
    /// [`OsstError::UnknownParticipant`] if it is not on the roster.
    pub fn public_key(&self, index: u32) -> (r: Result<&[u8; 32], OsstError>)
        requires
            self.wf(),
        ensures
            r is Ok <==> self.has(index),
            r matches Ok(k) ==> k@ == self.key(index),
            r matches Err(e) ==> e == OsstError::UnknownParticipant(index),
    {
        let ghost ids = roster_indices(self.list());
        let mut i: usize = 0;
        while i < self.participants.len()
            invariant
                i <= self.participants@.len(),
                ids == roster_indices(self.list()),
                self.wf(),
                forall|j: int| 0 <= j < i ==> ids[j] != index,
            decreases self.participants@.len() - i,
        {
            if self.participants[i].0 == index {
                proof {
                    assert(ids[i as int] == index);
                    let k = ids.index_of(index);
                    assert(0 <= k < ids.len() && ids[k] == index);
                }
                return Ok(&self.participants[i].1);
            }
            i += 1;
        }
        Err(OsstError::UnknownParticipant(index))
    }

    /// Hash over the whole participant set: the ceremony's fingerprint.
    pub fn transcript(&self) -> (r: [u8; 32])
        ensures
            r@ == sha256_digest(transcript_input(self.list(), self.session())),
    {
        let mut h: Vec<u8> = Vec::new();
        put_slice(&mut h, &TRANSCRIPT_DOMAIN);
        put_len(&mut h, self.participants.len());
        let ghost head = h@;
        let ghost ps = self.list();
        let mut i: usize = 0;
        assert(h@ =~= head + roster_entries(ps.subrange(0, 0)));
        while i < self.participants.len()
            invariant
                i <= self.participants@.len(),
                ps == self.participants@,
                h@ == head + roster_entries(ps.subrange(0, i as int)),
            decreases self.participants@.len() - i,
        {
            put_u32(&mut h, self.participants[i].0);
            put_slice(&mut h, &self.participants[i].1);
            proof {
                let next = ps.subrange(0, i as int + 1);
                assert(next.drop_last() =~= ps.subrange(0, i as int));
                assert(h@ =~= head + roster_entries(next));
            }
            i += 1;
        }
        assert(ps.subrange(0, i as int) =~= ps);
        put_slice(&mut h, &self.session_id);
        assert(h@ =~= transcript_input(self.list(), self.session()));
        sha256(&h)
    }

    /// The Noise prologue for one round of this ceremony.
    pub fn prologue(&self, round: u8) -> (r: Vec<u8>)
        ensures
            r@ == self.prologue_of(round),
            sha256_digest(transcript_input(self.list(), self.session())).len() == 32,
            self.list().len() <= u64::MAX,
            self.session().len() == 32,
    {
        let mut out: Vec<u8> = Vec::new();
        put_slice(&mut out, &PROLOGUE_DOMAIN);
        let transcript = self.transcript();
        assert(transcript@.len() == 32);
        assert(self.participants.len() <= u64::MAX);
        put_slice(&mut out, &transcript);
        put_slice(&mut out, &self.session_id);
        out.push(round);
        assert(out@ =~= self.prologue_of(round));
        out
    }
}

/// Where a participant stands.
fn position_of(participants: &[(u32, [u8; 32])], index: u32) -> (r: usize)
    requires
        roster_indices(participants@).contains(index),
    ensures
        r < participants@.len(),
        participants@[r as int].0 == index,
{
    let ghost ids = roster_indices(participants@);
    let mut i: usize = 0;
    while participants[i].0 != index
        invariant
            ids == roster_indices(participants@),
            ids.contains(index),
            i < participants@.len(),
            forall|j: int| 0 <= j < i ==> ids[j] != index,
        decreases participants@.len() - i,
    {
        assert(ids[i as int] != index);
        i += 1;
        assert(i < participants@.len()) by {
            let k = choose|k: int| 0 <= k < ids.len() && ids[k] == index;
            assert(k >= i);
        }
    }
    i
}

/// A roster does not depend on the order of its participants: two lists in
/// ascending order of index with the same participants are the same list.
pub proof fn law_roster_order_independent(a: Seq<(u32, [u8; 32])>, b: Seq<(u32, [u8; 32])>)
    requires
        ascending(roster_indices(a)),
        ascending(roster_indices(b)),
        forall|p: (u32, [u8; 32])| a.contains(p) <==> #[trigger] b.contains(p),
    ensures
        a == b,
    decreases a.len(),
{
    if a.len() == 0 {
        if b.len() > 0 {
            assert(b.contains(b[0]));
            assert(a.contains(b[0]));
        }
        assert(a =~= b);
    } else if b.len() == 0 {
        assert(a.contains(a[0]));
        assert(b.contains(a[0]));
    } else {
        let (ia, ib) = (roster_indices(a), roster_indices(b));
        let (m, n) = (a.len() - 1, b.len() - 1);
        assert(a.contains(a[m]));
        assert(b.contains(a[m]));
        assert(b.contains(b[n]));
        assert(a.contains(b[n]));
        let k = choose|k: int| 0 <= k < b.len() && b[k] == a[m];
        let j = choose|j: int| 0 <= j < a.len() && a[j] == b[n];
        assert(ia[j] == a[j].0 && ia[m] == a[m].0 && ib[k] == b[k].0 && ib[n] == b[n].0);
        if j < m {
            assert(ia[j] < ia[m]);
            if k < n {
                assert(ib[k] < ib[n]);
            }
        }
        assert(a[m] == b[n]);
        let (a1, b1) = (a.drop_last(), b.drop_last());
        assert forall|i: int, j: int| 0 <= i < j < a1.len() implies roster_indices(a1)[i]
            < roster_indices(a1)[j] by {
            assert(ia[i] < ia[j]);
        }
        assert forall|i: int, j: int| 0 <= i < j < b1.len() implies roster_indices(b1)[i]
            < roster_indices(b1)[j] by {
            assert(ib[i] < ib[j]);
        }
        assert forall|p: (u32, [u8; 32])| a1.contains(p) <==> #[trigger] b1.contains(p) by {
            if a1.contains(p) {
                let i = choose|i: int| 0 <= i < a1.len() && a1[i] == p;
                assert(a[i] == p && ia[i] < ia[m]);
                assert(a.contains(p));
                assert(b.contains(p));
                let l = choose|l: int| 0 <= l < b.len() && b[l] == p;
                assert(l != n);
                assert(b1[l] == p);
            }
            if b1.contains(p) {
                let i = choose|i: int| 0 <= i < b1.len() && b1[i] == p;
                assert(b[i] == p && ib[i] < ib[n]);
                assert(b.contains(p));
                assert(a.contains(p));
                let l = choose|l: int| 0 <= l < a.len() && a[l] == p;
                assert(l != m);
                assert(a1[l] == p);
            }
        }
        law_roster_order_independent(a1, b1);
        assert(a =~= a1.push(a[m]));
        assert(b =~= b1.push(b[n]));
    }
}

proof fn lemma_entries_len(ps: Seq<(u32, [u8; 32])>)
    ensures
        roster_entries(ps).len() == 36 * ps.len(),
    decreases ps.len(),
{
    if ps.len() > 0 {
        lemma_entries_len(ps.drop_last());
        lemma_le_bytes(ps.last().0 as int, 4);
    }
}

proof fn lemma_entries_injective(a: Seq<(u32, [u8; 32])>, b: Seq<(u32, [u8; 32])>)
    requires
        a.len() == b.len(),
        roster_entries(a) == roster_entries(b),
    ensures
        forall|i: int| 0 <= i < a.len() ==> (#[trigger] a[i]).0 == b[i].0 && a[i].1@ == b[i].1@,
    decreases a.len(),
{
    if a.len() > 0 {
        let (a1, b1) = (a.drop_last(), b.drop_last());
        let (ea, eb) = (
            le_bytes(a.last().0 as int, 4) + a.last().1@,
            le_bytes(b.last().0 as int, 4) + b.last().1@,
        );
        lemma_entries_len(a1);
        lemma_entries_len(b1);
        lemma_byte_bounds();
        lemma_le_bytes(a.last().0 as int, 4);
        lemma_le_bytes(b.last().0 as int, 4);
        lemma_concat_split(roster_entries(a1), ea, roster_entries(b1), eb);
        lemma_concat_split(
            le_bytes(a.last().0 as int, 4),
            a.last().1@,
            le_bytes(b.last().0 as int, 4),
            b.last().1@,
        );
        lemma_le_bytes_injective(a.last().0 as int, b.last().0 as int, 4);
        lemma_entries_injective(a1, b1);
        assert forall|i: int| 0 <= i < a.len() implies (#[trigger] a[i]).0 == b[i].0 && a[i].1@
            == b[i].1@ by {
            if i < a1.len() {
                assert(a1[i] == a[i] && b1[i] == b[i]);
            }
        }
    }
}

/// The transcript's input is injective: equal inputs have one participant set,
/// with the same keys, and one session.
pub proof fn law_transcript_input_injective(
    a: Seq<(u32, [u8; 32])>,
    session_a: Seq<u8>,
    b: Seq<(u32, [u8; 32])>,
    session_b: Seq<u8>,
)
    requires
        a.len() <= u64::MAX,
        b.len() <= u64::MAX,
        transcript_input(a, session_a) == transcript_input(b, session_b),
    ensures
        a.len() == b.len(),
        forall|i: int| 0 <= i < a.len() ==> (#[trigger] a[i]).0 == b[i].0 && a[i].1@ == b[i].1@,
        session_a == session_b,
{
    lemma_byte_bounds();
    let (ta, tb) = (roster_entries(a) + session_a, roster_entries(b) + session_b);
    let (la, lb) = (le_bytes(a.len() as int, 8), le_bytes(b.len() as int, 8));
    lemma_le_bytes(a.len() as int, 8);
    lemma_le_bytes(b.len() as int, 8);
    lemma_concat_split(TRANSCRIPT_DOMAIN@, la + ta, TRANSCRIPT_DOMAIN@, lb + tb);
    lemma_concat_split(la, ta, lb, tb);
    lemma_le_bytes_injective(a.len() as int, b.len() as int, 8);
    lemma_entries_len(a);
    lemma_entries_len(b);
    lemma_concat_split(roster_entries(a), session_a, roster_entries(b), session_b);
    lemma_entries_injective(a, b);
}

/// Prologues of two ceremonies or rounds differ, unless session, round and
/// transcript are the same: for sessions and transcripts of one length.
pub proof fn law_prologue_injective(
    a: Seq<(u32, [u8; 32])>,
    session_a: Seq<u8>,
    round_a: u8,
    b: Seq<(u32, [u8; 32])>,
    session_b: Seq<u8>,
    round_b: u8,
)
    requires
        session_a.len() == session_b.len(),
        sha256_digest(transcript_input(a, session_a)).len() == sha256_digest(
            transcript_input(b, session_b),
        ).len(),
        prologue_bytes(a, session_a, round_a) == prologue_bytes(b, session_b, round_b),
    ensures
        sha256_digest(transcript_input(a, session_a)) == sha256_digest(
            transcript_input(b, session_b),
        ),
        session_a == session_b,
        round_a == round_b,
{
    let (da, db) = (
        sha256_digest(transcript_input(a, session_a)),
        sha256_digest(transcript_input(b, session_b)),
    );
    let (sa, sb) = (session_a + seq![round_a], session_b + seq![round_b]);
    lemma_concat_split(PROLOGUE_DOMAIN@, da + sa, PROLOGUE_DOMAIN@, db + sb);
    lemma_concat_split(da, sa, db, sb);
    lemma_concat_split(session_a, seq![round_a], session_b, seq![round_b]);
    assert(seq![round_a][0] == seq![round_b][0]);
}

// ---------------------------------------------------------------------------
// Noise
// ---------------------------------------------------------------------------

/// What a Noise_K responder reads out of a message, if it reads anything.
pub uninterp spec fn noise_payload(
    local_private: Seq<u8>,
    remote_public: Seq<u8>,
    prologue: Seq<u8>,
    message: Seq<u8>,
) -> Option<Seq<u8>>;

/// `snow::HandshakeState::write_message` of a Noise_K initiator. It draws a fresh
/// ephemeral key, so two messages of one plaintext differ. A plaintext that fits
/// in a Noise message is always written, with forty-eight bytes more, and the
/// responder whose public key was named, with the initiator's public key and the
/// same prologue, reads it back.
#[verifier::external_body]
fn noise_seal(
    local_private: &[u8; 32],
    remote_public: &[u8; 32],
    prologue: &[u8],
    plaintext: &[u8],
) -> (r: Option<Vec<u8>>)
    requires
        plaintext@.len() + 48 <= 65535,
    ensures
        r matches Some(m) && m@.len() == plaintext@.len() + 48 && forall|secret: Seq<u8>|
            secret.len() == 32 && #[trigger] x25519_public_key(secret) == remote_public@
                ==> noise_payload(
                secret,
                x25519_public_key(local_private@),
                prologue@,
                m@,
            ) == Some(plaintext@),
{
    let mut noise = snow::Builder::new(NOISE_PATTERN.parse().ok()?)
        .prologue(prologue)
        .local_private_key(local_private)
        .remote_public_key(remote_public)
        .build_initiator()
        .ok()?;
    let mut out = vec![0u8; plaintext.len() + 128];
    let n = noise.write_message(plaintext, &mut out).ok()?;
    out.truncate(n);
    Some(out)
}

/// `snow::HandshakeState::read_message` of a Noise_K responder: what is read, if
/// anything, is a function of the keys, the prologue and the message alone.
#[verifier::external_body]
fn noise_open(
    local_private: &[u8; 32],
    remote_public: &[u8; 32],
    prologue: &[u8],
    message: &[u8],
) -> (r: Option<Vec<u8>>)
    ensures
        r is Some <==> noise_payload(local_private@, remote_public@, prologue@, message@) is Some,
        r matches Some(p) ==> noise_payload(
            local_private@,
            remote_public@,
            prologue@,
            message@,
        ) == Some(p@),
{
    let mut noise = snow::Builder::new(NOISE_PATTERN.parse().ok()?)
        .prologue(prologue)
        .local_private_key(local_private)
        .remote_public_key(remote_public)
        .build_responder()
        .ok()?;
    let mut out = vec![0u8; message.len() + 128];
    let n = noise.read_message(message, &mut out).ok()?;
    out.truncate(n);
    Some(out)
}

// ---------------------------------------------------------------------------
// Sealed sub-shares
// ---------------------------------------------------------------------------

/// A sub-share sealed to one recipient.
///
/// The indices are in the clear because a transport needs them to route; they
/// are also inside the ciphertext, and the two are checked to agree, so
/// relabelling a package achieves nothing.
#[derive(Clone, Debug, PartialEq, Eq)]
pub struct SealedSubShare {
    /// Who dealt it.
    pub dealer_index: u32,
    /// Who it is for.
    pub recipient_index: u32,
    /// Noise_K message: ephemeral key, ciphertext and tag.
    pub ciphertext: Vec<u8>,
}

/// The digest of a package's ciphertext.
pub open spec fn sealed_digest_value(ciphertext: Seq<u8>) -> Seq<u8> {
    sha256_digest(SEALED_DIGEST_DOMAIN@ + prefixed(ciphertext))
}

/// SHA-256 of a sealed package's ciphertext, as delivered, so that a verdict
/// names one delivered package rather than a claim in the abstract.
pub fn sealed_ciphertext_digest(ciphertext: &[u8]) -> (r: [u8; 32])
    ensures
        r@ == sealed_digest_value(ciphertext@),
{
    let mut h: Vec<u8> = Vec::new();
    put_slice(&mut h, &SEALED_DIGEST_DOMAIN);
    put_len(&mut h, ciphertext.len());
    put_slice(&mut h, ciphertext);
    assert(h@ =~= SEALED_DIGEST_DOMAIN@ + prefixed(ciphertext@));
    sha256(&h)
}

/// What is sealed: the sub-share, then the digest of the dealer's commitment.
pub open spec fn sealed_plaintext<P: OsstPoint>(s: SubShareView, c: CommitmentView) -> Seq<u8> {
    subshare_bytes::<P::Scalar>(s) + commitment_digest_value::<P>(c)
}

/// A package opens to a plaintext for whoever holds the secret of the
/// recipient's key, under the sender's secret and a prologue.
pub open spec fn opens_to(
    ciphertext: Seq<u8>,
    sender_secret: Seq<u8>,
    recipient_key: Seq<u8>,
    prologue: Seq<u8>,
    plaintext: Seq<u8>,
) -> bool {
    forall|secret: Seq<u8>|
        secret.len() == 32 && #[trigger] x25519_public_key(secret) == recipient_key
            ==> noise_payload(secret, x25519_public_key(sender_secret), prologue, ciphertext)
            == Some(plaintext)
}

/// Why a sub-share is not sealed, if it is not.
pub open spec fn seal_error(
    roster: SealedRoster,
    s: SubShareView,
    commitment_dealer: u32,
) -> Option<OsstError> {
    if s.dealer != commitment_dealer {
        Some(OsstError::InvalidIndex)
    } else if !roster.has(s.player) {
        Some(OsstError::UnknownParticipant(s.player))
    } else if !roster.has(s.dealer) {
        Some(OsstError::UnknownParticipant(s.dealer))
    } else {
        None
    }
}

/// A package is a sealed sub-share.
pub open spec fn is_sealed<P: OsstPoint>(
    sealed: SealedSubShare,
    sender_secret: Seq<u8>,
    roster: SealedRoster,
    round: u8,
    s: SubShareView,
    c: CommitmentView,
) -> bool {
    &&& sealed.dealer_index == s.dealer
    &&& sealed.recipient_index == s.player
    &&& sealed_plaintext::<P>(s, c).len() == 72
    &&& opens_to(
        sealed.ciphertext@,
        sender_secret,
        roster.key(s.player),
        roster.prologue_of(round),
        sealed_plaintext::<P>(s, c),
    )
}

/// Seals one sub-share from a dealer to one recipient.
///
/// The recipient's key comes from the roster; the digest of the dealer's own
/// commitment travels inside the ciphertext.
///
/// # Errors
///
/// [`OsstError::InvalidIndex`] if the sub-share does not come from the
/// commitment's dealer; [`OsstError::UnknownParticipant`] if the recipient or
/// the dealer is not on the roster. Noise does not refuse a plaintext of this
/// size.
pub fn seal_subshare<P: OsstPoint>(
    dealer_x25519_secret: &[u8; 32],
    roster: &SealedRoster,
    round: u8,
    subshare: &SubShare<P::Scalar>,
    commitment: &DealerCommitment<P>,
) -> (r: Result<SealedSubShare, OsstError>)
    requires
        roster.wf(),
    ensures
        r is Ok <==> seal_error(*roster, subshare@, commitment.dealer_index) is None,
        r matches Ok(sealed) ==> is_sealed::<P>(
            sealed,
            dealer_x25519_secret@,
            *roster,
            round,
            subshare@,
            commitment@,
        ),
        r matches Err(e) ==> seal_error(*roster, subshare@, commitment.dealer_index) == Some(e),
{
    if subshare.dealer() != commitment.dealer_index {
        return Err(OsstError::InvalidIndex);
    }
    let recipient = match roster.public_key(subshare.player()) {
        Ok(k) => k,
        Err(e) => return Err(e),
    };
    match roster.public_key(subshare.dealer()) {
        Ok(_) => {},
        Err(e) => return Err(e),
    }
    let mut plaintext: Vec<u8> = Vec::new();
    let head = subshare.encode_plaintext();
    put_slice(&mut plaintext, &head);
    let digest = commitment_digest::<P>(commitment);
    put_slice(&mut plaintext, &digest);
    assert(plaintext@ =~= sealed_plaintext::<P>(subshare@, commitment@));
    let prologue = roster.prologue(round);
    match noise_seal(dealer_x25519_secret, recipient, &prologue, &plaintext) {
        Some(ciphertext) => Ok(
            SealedSubShare {
                dealer_index: subshare.dealer(),
                recipient_index: subshare.player(),
                ciphertext,
            },
        ),
        None => Err(OsstError::SealedOpenFailed(subshare.dealer())),
    }
}

/// The sub-share in an opened package: what the envelope names, or the error of
/// a package that is refused before it is verified.
pub open spec fn opened_subshare<P: OsstPoint>(
    plaintext: Option<Seq<u8>>,
    dealer: u32,
    recipient: u32,
) -> Result<SubShareView, OsstError> {
    match plaintext {
        None => Err(OsstError::SealedOpenFailed(dealer)),
        Some(p) => if p.len() != 72 {
            Err(OsstError::SealedOpenFailed(dealer))
        } else {
            match parse_subshare::<P::Scalar>(p.subrange(0, 40)) {
                Err(e) => Err(e),
                Ok(s) => if s.dealer != dealer || s.player != recipient {
                    Err(OsstError::SealedOpenFailed(dealer))
                } else {
                    Ok(s)
                },
            }
        },
    }
}

/// Reads the sub-share out of an opened package.
///
/// # Errors
///
/// [`OsstError::SealedOpenFailed`] if nothing was opened, what was opened has
/// the wrong length, or its indices disagree with the envelope; otherwise what
/// makes the sub-share unreadable.
pub fn read_opened<P: OsstPoint>(
    plaintext: &Option<Vec<u8>>,
    dealer_index: u32,
    recipient_index: u32,
) -> (r: Result<SubShare<P::Scalar>, OsstError>)
    ensures
        ({
            let p = match plaintext {
                Some(v) => Some(v@),
                None => None,
            };
            &&& r matches Ok(s) ==> opened_subshare::<P>(p, dealer_index, recipient_index) == Ok::<
                SubShareView,
                OsstError,
            >(s@)
            &&& r matches Err(e) ==> opened_subshare::<P>(p, dealer_index, recipient_index) == Err::<
                SubShareView,
                OsstError,
            >(e)
        }),
{
    let bytes = match plaintext {
        None => return Err(OsstError::SealedOpenFailed(dealer_index)),
        Some(v) => v,
    };
    if bytes.len() != 72 {
        return Err(OsstError::SealedOpenFailed(dealer_index));
    }
    let mut head: [u8; 40] = [0u8; 40];
    let mut i: usize = 0;
    while i < 40
        invariant
            i <= 40,
            bytes@.len() == 72,
            forall|j: int| 0 <= j < i ==> head@[j] == bytes@[j],
        decreases 40 - i,
    {
        head[i] = bytes[i];
        i += 1;
    }
    assert(head@ =~= bytes@.subrange(0, 40));
    let mut subshare = match SubShare::<P::Scalar>::decode_plaintext(&head) {
        Ok(s) => s,
        Err(e) => return Err(e),
    };
    if subshare.dealer() != dealer_index || subshare.player() != recipient_index {
        subshare.zeroize();
        return Err(OsstError::SealedOpenFailed(dealer_index));
    }
    Ok(subshare)
}

/// The outcome of opening a package against a commitment, from what Noise
/// opened.
pub open spec fn open_outcome<P: OsstPoint>(
    plaintext: Option<Seq<u8>>,
    dealer: u32,
    recipient: u32,
    c: CommitmentView,
) -> Result<SubShareView, OsstError> {
    match opened_subshare::<P>(plaintext, dealer, recipient) {
        Err(e) => Err(e),
        Ok(s) => if s.dealer != c.dealer || plaintext->0.subrange(40, 72)
            != commitment_digest_value::<P>(c) || s.value != poly(c.polynomial, recipient as int)
            % ord::<P>() {
            Err(OsstError::InvalidSubShare(dealer))
        } else {
            Ok(s)
        },
    }
}

/// Accepts what Noise opened: reads the sub-share, and checks that it came with
/// this commitment and lies on it.
///
/// # Errors
///
/// Those of [`read_opened`]; [`OsstError::InvalidSubShare`] if the commitment's
/// dealer or digest, or the value, is wrong.
pub fn accept_opened<P: OsstPoint>(
    plaintext: Option<Vec<u8>>,
    dealer_index: u32,
    recipient_index: u32,
    commitment: &DealerCommitment<P>,
) -> (r: Result<SubShare<P::Scalar>, OsstError>)
    ensures
        ({
            let p = match plaintext {
                Some(v) => Some(v@),
                None => None,
            };
            let outcome = open_outcome::<P>(p, dealer_index, recipient_index, commitment@);
            &&& r matches Ok(s) ==> outcome == Ok::<SubShareView, OsstError>(s@)
            &&& r matches Err(e) ==> outcome == Err::<SubShareView, OsstError>(e)
        }),
{
    let mut subshare = match read_opened::<P>(&plaintext, dealer_index, recipient_index) {
        Ok(s) => s,
        Err(e) => return Err(e),
    };
    let bytes = match plaintext {
        Some(v) => v,
        None => return Err(OsstError::SealedOpenFailed(dealer_index)),
    };
    let inside = get_array32(&bytes, 40);
    let digest = commitment_digest::<P>(commitment);
    if subshare.dealer() != commitment.dealer_index || !bytes_eq(&inside, &digest) {
        subshare.zeroize();
        return Err(OsstError::InvalidSubShare(dealer_index));
    }
    proof {
        lemma_parsed_nonzero::<P>(bytes@.subrange(0, 40));
    }
    if !commitment.verify_subshare(recipient_index, subshare.value()) {
        subshare.zeroize();
        return Err(OsstError::InvalidSubShare(dealer_index));
    }
    Ok(subshare)
}

/// A sub-share that was read has a player.
proof fn lemma_parsed_nonzero<P: OsstPoint>(b: Seq<u8>)
    requires
        b.len() == 40,
    ensures
        parse_subshare::<P::Scalar>(b) matches Ok(s) ==> s.player != 0 && s.dealer != 0,
{
    lemma_byte_bounds();
    crate::bytes::lemma_le_value(b.subrange(0, 4));
    crate::bytes::lemma_le_value(b.subrange(4, 8));
}

/// The outcome of opening a package, by a recipient.
pub open spec fn subshare_outcome<P: OsstPoint>(
    recipient_secret: Seq<u8>,
    recipient: u32,
    roster: SealedRoster,
    round: u8,
    sealed: SealedSubShare,
    c: CommitmentView,
) -> Result<SubShareView, OsstError> {
    if !roster.has(sealed.dealer_index) {
        Err(OsstError::UnknownParticipant(sealed.dealer_index))
    } else if sealed.recipient_index != recipient {
        Err(OsstError::SealedOpenFailed(sealed.dealer_index))
    } else {
        open_outcome::<P>(
            noise_payload(
                recipient_secret,
                roster.key(sealed.dealer_index),
                roster.prologue_of(round),
                sealed.ciphertext@,
            ),
            sealed.dealer_index,
            recipient,
            c,
        )
    }
}

/// Opens a sealed sub-share and verifies it against the dealer's commitment.
///
/// Four things must hold: the package opens under the recipient's secret, the
/// named dealer's key and this ceremony's prologue; the indices inside match
/// those outside; the commitment digest inside is the supplied commitment's; and
/// the sub-share lies on that commitment.
///
/// # Errors
///
/// [`OsstError::UnknownParticipant`] for a dealer the roster does not name;
/// [`OsstError::SealedOpenFailed`], deliberately uninformative, when the package
/// does not open or its indices disagree with its envelope;
/// [`OsstError::InvalidSubShare`] when it opens but the digest or the value is
/// wrong.
pub fn open_subshare<P: OsstPoint>(
    recipient_x25519_secret: &[u8; 32],
    recipient_index: u32,
    roster: &SealedRoster,
    round: u8,
    sealed: &SealedSubShare,
    commitment: &DealerCommitment<P>,
) -> (r: Result<SubShare<P::Scalar>, OsstError>)
    requires
        roster.wf(),
    ensures
        ({
            let outcome = subshare_outcome::<P>(
                recipient_x25519_secret@,
                recipient_index,
                *roster,
                round,
                *sealed,
                commitment@,
            );
            &&& r matches Ok(s) ==> outcome == Ok::<SubShareView, OsstError>(s@)
            &&& r matches Err(e) ==> outcome == Err::<SubShareView, OsstError>(e)
        }),
{
    let dealer = match roster.public_key(sealed.dealer_index) {
        Ok(k) => k,
        Err(e) => return Err(e),
    };
    if sealed.recipient_index != recipient_index {
        return Err(OsstError::SealedOpenFailed(sealed.dealer_index));
    }
    let prologue = roster.prologue(round);
    let plaintext = noise_open(recipient_x25519_secret, dealer, &prologue, &sealed.ciphertext);
    accept_opened::<P>(plaintext, sealed.dealer_index, recipient_index, commitment)
}

/// Why [`open_subshare_agreed_with_evidence`] refused a package.
///
/// Only [`BadSubShare`](Self::BadSubShare) is an accusation that anyone else can
/// check. Everything else is local: a package that did not open could as easily
/// be a corrupted byte on the wire as a hostile dealer.
pub enum OpenFailure {
    /// Not an accusation: the package did not open under this ceremony's keys
    /// and prologue, its envelope disagreed with its contents, the dealer is not
    /// in the agreed set, or the plaintext was malformed.
    Local(OsstError),
    /// The package opened, and the scalar inside is not on the dealer's
    /// commitment in the agreed set. Sign it into a complaint, and require
    /// several upheld complaints ([`dkg::ComplaintTally`]) before disqualifying
    /// the dealer.
    BadSubShare {
        /// What was opened.
        evidence: BadSubShareEvidence,
    },
}

impl OpenFailure {
    /// The equivalent error.
    pub open spec fn error(self) -> OsstError {
        match self {
            OpenFailure::Local(e) => e,
            OpenFailure::BadSubShare { evidence } => OsstError::InvalidSubShare(
                evidence.dealer_index,
            ),
        }
    }

    /// The equivalent error, discarding any evidence: what
    /// [`open_subshare_agreed`] returns.
    pub fn into_error(self) -> (r: OsstError)
        ensures
            r == self.error(),
    {
        match self {
            OpenFailure::Local(e) => e,
            OpenFailure::BadSubShare { evidence } => OsstError::InvalidSubShare(
                evidence.dealer_index,
            ),
        }
    }

    /// The text of the failure.
    pub open spec fn text(self) -> Seq<char> {
        match self {
            OpenFailure::Local(e) => e.text(),
            OpenFailure::BadSubShare { evidence } => "sub-share from dealer "@ + decimal(
                evidence.dealer_index as nat,
            ) + " fails the Feldman check against the agreed commitment"@,
        }
    }

    /// The text of the failure, for people.
    pub fn message(&self) -> (r: String)
        ensures
            r@ == self.text(),
    {
        match self {
            OpenFailure::Local(e) => e.message(),
            OpenFailure::BadSubShare { evidence } => {
                let mut out = String::new();
                put_text(&mut out, "sub-share from dealer ");
                put_decimal(&mut out, evidence.dealer_index as u64);
                put_text(&mut out, " fails the Feldman check against the agreed commitment");
                out
            },
        }
    }
}

impl From<OsstError> for OpenFailure {
    fn from(e: OsstError) -> (r: Self) {
        OpenFailure::Local(e)
    }
}

impl vstd::std_specs::convert::FromSpecImpl<OsstError> for OpenFailure {
    open spec fn obeys_from_spec() -> bool {
        true
    }

    open spec fn from_spec(e: OsstError) -> Self {
        OpenFailure::Local(e)
    }
}

/// The outcome of opening a package against an agreed set: the sub-share, a
/// local error, or a value that is not on the agreed commitment.
pub enum AgreedOutcome {
    /// The sub-share.
    Accepted,
    /// A local error.
    Refused(OsstError),
    /// A value that is not on the agreed commitment.
    Bad,
}

/// Whether what Noise opened is accepted against an agreed commitment.
///
/// The digest inside is checked after the value: a value that is not on the
/// commitment is accusable however the digest came out.
pub open spec fn agreed_outcome<P: OsstPoint>(
    plaintext: Option<Seq<u8>>,
    dealer: u32,
    recipient: u32,
    c: CommitmentView,
) -> AgreedOutcome {
    match opened_subshare::<P>(plaintext, dealer, recipient) {
        Err(e) => AgreedOutcome::Refused(e),
        Ok(s) => if s.value != poly(c.polynomial, recipient as int) % ord::<P>() {
            AgreedOutcome::Bad
        } else if plaintext->0.subrange(40, 72) != commitment_digest_value::<P>(c) {
            AgreedOutcome::Refused(OsstError::InvalidSubShare(dealer))
        } else {
            AgreedOutcome::Accepted
        },
    }
}

/// The evidence of a bad sub-share names the package, the ceremony, the agreed
/// commitment and the scalar.
pub open spec fn is_evidence<P: OsstPoint>(
    e: BadSubShareEvidence,
    s: SubShareView,
    recipient: u32,
    session: Seq<u8>,
    round: u8,
    ciphertext: Seq<u8>,
    c: CommitmentView,
) -> bool {
    &&& e.dealer_index == s.dealer
    &&& e.recipient_index == recipient
    &&& e.session_id@ == session
    &&& e.round == round
    &&& e.subshare@ == <P::Scalar as OsstScalar>::repr(s.value)
    &&& e.agreed_digest@ == commitment_digest_value::<P>(c)
    &&& e.sealed_digest@ == sealed_digest_value(ciphertext)
}

/// Accepts what Noise opened against the dealer's commitment in the agreed set,
/// or says why not.
///
/// # Errors
///
/// See [`OpenFailure`].
pub fn accept_agreed<P: OsstPoint>(
    plaintext: Option<Vec<u8>>,
    recipient_index: u32,
    session_id: &[u8; 32],
    round: u8,
    sealed: &SealedSubShare,
    commitment: &DealerCommitment<P>,
) -> (r: Result<SubShare<P::Scalar>, OpenFailure>)
    ensures
        ({
            let p = match plaintext {
                Some(v) => Some(v@),
                None => None,
            };
            let opened = opened_subshare::<P>(p, sealed.dealer_index, recipient_index);
            match agreed_outcome::<P>(p, sealed.dealer_index, recipient_index, commitment@) {
                AgreedOutcome::Accepted => r matches Ok(s) && opened == Ok::<
                    SubShareView,
                    OsstError,
                >(s@),
                AgreedOutcome::Refused(e) => r matches Err(OpenFailure::Local(f)) && f == e,
                AgreedOutcome::Bad => r matches Err(OpenFailure::BadSubShare { evidence })
                    && is_evidence::<P>(
                    evidence,
                    opened->Ok_0,
                    recipient_index,
                    session_id@,
                    round,
                    sealed.ciphertext@,
                    commitment@,
                ) && <P::Scalar as OsstScalar>::unrepr(evidence.subshare@) == opened->Ok_0.value
                    && opened->Ok_0.value < ord::<P>() && opened->Ok_0.player != 0,
            }
        }),
{
    let mut subshare = match read_opened::<P>(&plaintext, sealed.dealer_index, recipient_index) {
        Ok(s) => s,
        Err(e) => return Err(OpenFailure::from(e)),
    };
    let bytes = match plaintext {
        Some(v) => v,
        None => return Err(OpenFailure::from(OsstError::SealedOpenFailed(sealed.dealer_index))),
    };
    proof {
        lemma_parsed_nonzero::<P>(bytes@.subrange(0, 40));
    }
    if !commitment.verify_subshare(recipient_index, subshare.value()) {
        let value = subshare.value();
        let revealed = value.to_bytes();
        proof {
            value.lemma_val();
            <P::Scalar as OsstScalar>::lemma_repr(subshare@.value);
        }
        subshare.zeroize();
        return Err(
            OpenFailure::BadSubShare {
                evidence: BadSubShareEvidence {
                    dealer_index: sealed.dealer_index,
                    recipient_index,
                    session_id: *session_id,
                    round,
                    subshare: revealed,
                    agreed_digest: commitment_digest::<P>(commitment),
                    sealed_digest: sealed_ciphertext_digest(&sealed.ciphertext),
                },
            },
        );
    }
    let inside = get_array32(&bytes, 40);
    let digest = commitment_digest::<P>(commitment);
    if !bytes_eq(&inside, &digest) {
        subshare.zeroize();
        return Err(OpenFailure::from(OsstError::InvalidSubShare(sealed.dealer_index)));
    }
    Ok(subshare)
}

/// The error of a package that is refused before it is opened: the agreed set or
/// the roster has no such dealer, or it is for another recipient.
pub open spec fn agreed_error(
    recipient: u32,
    roster: SealedRoster,
    sealed: SealedSubShare,
    agreed: AgreedView,
) -> Option<OsstError> {
    if !agreed.dealers().contains(sealed.dealer_index) {
        Some(OsstError::UnexpectedDealer(sealed.dealer_index))
    } else if !roster.has(sealed.dealer_index) {
        Some(OsstError::UnknownParticipant(sealed.dealer_index))
    } else if sealed.recipient_index != recipient {
        Some(OsstError::SealedOpenFailed(sealed.dealer_index))
    } else {
        None
    }
}

/// What Noise reads out of a package for a recipient.
pub open spec fn package_payload(
    recipient_secret: Seq<u8>,
    roster: SealedRoster,
    round: u8,
    sealed: SealedSubShare,
) -> Option<Seq<u8>> {
    noise_payload(
        recipient_secret,
        roster.key(sealed.dealer_index),
        roster.prologue_of(round),
        sealed.ciphertext@,
    )
}

/// The outcome of opening a package against an agreed set.
pub open spec fn agreed_package_outcome<P: OsstPoint>(
    recipient_secret: Seq<u8>,
    recipient: u32,
    roster: SealedRoster,
    round: u8,
    sealed: SealedSubShare,
    agreed: AgreedView,
) -> AgreedOutcome {
    match agreed_error(recipient, roster, sealed, agreed) {
        Some(e) => AgreedOutcome::Refused(e),
        None => agreed_outcome::<P>(
            package_payload(recipient_secret, roster, round, sealed),
            sealed.dealer_index,
            recipient,
            agreed.commitment(sealed.dealer_index),
        ),
    }
}

/// [`open_subshare`], with the dealer's commitment taken from the agreed round-1
/// set, keeping a rejected plaintext as evidence that every other participant
/// can re-check against its own agreed set.
///
/// # Errors
///
/// See [`OpenFailure`].
pub fn open_subshare_agreed_with_evidence<P: OsstPoint>(
    recipient_x25519_secret: &[u8; 32],
    recipient_index: u32,
    roster: &SealedRoster,
    round: u8,
    sealed: &SealedSubShare,
    agreed: &AgreedRound1<P>,
) -> (r: Result<SubShare<P::Scalar>, OpenFailure>)
    requires
        roster.wf(),
        agreed.wf(),
    ensures
        ({
            let opened = opened_subshare::<P>(
                package_payload(recipient_x25519_secret@, *roster, round, *sealed),
                sealed.dealer_index,
                recipient_index,
            );
            match agreed_package_outcome::<P>(
                recipient_x25519_secret@,
                recipient_index,
                *roster,
                round,
                *sealed,
                agreed@,
            ) {
                AgreedOutcome::Accepted => r matches Ok(s) && opened == Ok::<
                    SubShareView,
                    OsstError,
                >(s@),
                AgreedOutcome::Refused(e) => r matches Err(OpenFailure::Local(f)) && f == e,
                AgreedOutcome::Bad => r matches Err(OpenFailure::BadSubShare { evidence })
                    && is_evidence::<P>(
                    evidence,
                    opened->Ok_0,
                    recipient_index,
                    roster.session(),
                    round,
                    sealed.ciphertext@,
                    agreed@.commitment(sealed.dealer_index),
                ) && is_bad_subshare::<P>(evidence, agreed@),
            }
        }),
{
    let commitment = match agreed.commitment(sealed.dealer_index) {
        Ok(c) => c,
        Err(e) => return Err(OpenFailure::from(e)),
    };
    let dealer = match roster.public_key(sealed.dealer_index) {
        Ok(k) => k,
        Err(e) => return Err(OpenFailure::from(e)),
    };
    if sealed.recipient_index != recipient_index {
        return Err(OpenFailure::from(OsstError::SealedOpenFailed(sealed.dealer_index)));
    }
    let prologue = roster.prologue(round);
    let plaintext = noise_open(recipient_x25519_secret, dealer, &prologue, &sealed.ciphertext);
    accept_agreed::<P>(plaintext, recipient_index, roster.session_id(), round, sealed, commitment)
}

/// [`open_subshare`], with the dealer's commitment taken from the agreed round-1
/// set instead of from the caller: a dealer that sent two participants different
/// commitments cannot have both in the agreed set.
///
/// # Errors
///
/// [`OsstError::UnexpectedDealer`] if the agreed set has no commitment of the
/// package's dealer; otherwise the errors of [`open_subshare`].
pub fn open_subshare_agreed<P: OsstPoint>(
    recipient_x25519_secret: &[u8; 32],
    recipient_index: u32,
    roster: &SealedRoster,
    round: u8,
    sealed: &SealedSubShare,
    agreed: &AgreedRound1<P>,
) -> (r: Result<SubShare<P::Scalar>, OsstError>)
    requires
        roster.wf(),
        agreed.wf(),
    ensures
        ({
            let opened = opened_subshare::<P>(
                package_payload(recipient_x25519_secret@, *roster, round, *sealed),
                sealed.dealer_index,
                recipient_index,
            );
            match agreed_package_outcome::<P>(
                recipient_x25519_secret@,
                recipient_index,
                *roster,
                round,
                *sealed,
                agreed@,
            ) {
                AgreedOutcome::Accepted => r matches Ok(s) && opened == Ok::<
                    SubShareView,
                    OsstError,
                >(s@),
                AgreedOutcome::Refused(e) => r matches Err(f) && f == e,
                AgreedOutcome::Bad => r matches Err(f) && f == OsstError::InvalidSubShare(
                    sealed.dealer_index,
                ),
            }
        }),
{
    match open_subshare_agreed_with_evidence::<P>(
        recipient_x25519_secret,
        recipient_index,
        roster,
        round,
        sealed,
        agreed,
    ) {
        Ok(s) => Ok(s),
        Err(f) => Err(f.into_error()),
    }
}

/// Builds a dealer's whole round-2 message set: one sealed package per roster
/// participant, the dealer included, in ascending order of index.
///
/// # Errors
///
/// [`OsstError::UnknownParticipant`] if the dealer is not on the roster.
pub fn seal_round2<P: OsstPoint>(
    dealer: &dkg::Dealer<P>,
    dealer_x25519_secret: &[u8; 32],
    roster: &SealedRoster,
    round: u8,
) -> (r: Result<Vec<SealedSubShare>, OsstError>)
    requires
        dealer.wf(),
        roster.wf(),
    ensures
        r is Ok <==> roster.has(dealer@.index),
        r matches Ok(packages) ==> packages@.len() == roster.list().len() && forall|i: int|
            0 <= i < packages@.len() ==> is_sealed::<P>(
                #[trigger] packages@[i],
                dealer_x25519_secret@,
                *roster,
                round,
                dealt::<P>(dealer@, roster.list()[i].0),
                CommitmentView { dealer: dealer@.index, polynomial: dealer@.polynomial },
            ),
        r matches Err(e) ==> e == OsstError::UnknownParticipant(dealer@.index),
{
    let commitment = dealer.commitment();
    proof {
        assert(commitment@ == CommitmentView {
            dealer: dealer@.index,
            polynomial: dealer@.polynomial,
        });
    }
    let ghost ids = roster_indices(roster.list());
    let participants = roster.participants();
    let mut out: Vec<SealedSubShare> = Vec::new();
    let mut i: usize = 0;
    while i < participants.len()
        invariant
            i <= participants@.len(),
            participants@ == roster.list(),
            ids == roster_indices(roster.list()),
            ids.len() == participants@.len(),
            dealer.wf(),
            roster.wf(),
            commitment@ == (CommitmentView {
                dealer: dealer@.index,
                polynomial: dealer@.polynomial,
            }),
            i > 0 ==> roster.has(dealer@.index),
            out@.len() == i,
            forall|k: int|
                0 <= k < i ==> is_sealed::<P>(
                    #[trigger] out@[k],
                    dealer_x25519_secret@,
                    *roster,
                    round,
                    dealt::<P>(dealer@, roster.list()[k].0),
                    commitment@,
                ),
        decreases participants@.len() - i,
    {
        let index = participants[i].0;
        assert(ids[i as int] == index);
        assert(ids.contains(index));
        let mut subshare = match dealer.generate_subshare(index) {
            Ok(s) => s,
            Err(e) => {
                assert(ids.contains(0));
                return Err(e)
            },
        };
        let package = seal_subshare::<P>(
            dealer_x25519_secret,
            roster,
            round,
            &subshare,
            commitment,
        );
        subshare.zeroize();
        match package {
            Ok(p) => out.push(p),
            Err(e) => return Err(e),
        }
        i += 1;
    }
    Ok(out)
}

// ---------------------------------------------------------------------------
// Laws
// ---------------------------------------------------------------------------

/// A sealed sub-share opens for its recipient: where the sender's secret is that
/// of the dealer's roster key and the recipient's that of its own, and the
/// sub-share lies on the commitment, what was sealed is what is opened.
pub proof fn law_sealed_opens<P: OsstPoint>(
    sealed: SealedSubShare,
    sender_secret: Seq<u8>,
    recipient_secret: Seq<u8>,
    roster: SealedRoster,
    round: u8,
    s: SubShareView,
    c: CommitmentView,
)
    requires
        seal_error(roster, s, c.dealer) is None,
        is_sealed::<P>(sealed, sender_secret, roster, round, s, c),
        x25519_public_key(sender_secret) == roster.key(s.dealer),
        x25519_public_key(recipient_secret) == roster.key(s.player),
        recipient_secret.len() == 32,
        s.dealer != 0,
        s.player != 0,
        s.value == poly(c.polynomial, s.player as int) % ord::<P>(),
    ensures
        subshare_outcome::<P>(recipient_secret, s.player, roster, round, sealed, c) == Ok::<
            SubShareView,
            OsstError,
        >(s),
{
    let p = sealed_plaintext::<P>(s, c);
    <P::Scalar as OsstScalar>::lemma_order();
    lemma_eqm_mod(poly(c.polynomial, s.player as int), ord::<P>());
    lemma_subshare_bytes::<P::Scalar>(s);
    assert(noise_payload(
        recipient_secret,
        x25519_public_key(sender_secret),
        roster.prologue_of(round),
        sealed.ciphertext@,
    ) == Some(p));
    assert(p.subrange(0, 40) =~= subshare_bytes::<P::Scalar>(s));
    assert(p.subrange(40, 72) =~= commitment_digest_value::<P>(c));
}

/// A commitment that is replaced is refused: a package of a dealer opened against a
/// commitment other than the one it was sealed with, told apart by their digests,
/// gives the error of a bad sub-share, whatever the value inside.
pub proof fn law_replaced_commitment_refused<P: OsstPoint>(
    sealed: SealedSubShare,
    sender_secret: Seq<u8>,
    recipient_secret: Seq<u8>,
    roster: SealedRoster,
    round: u8,
    s: SubShareView,
    c: CommitmentView,
    other: CommitmentView,
)
    requires
        seal_error(roster, s, c.dealer) is None,
        is_sealed::<P>(sealed, sender_secret, roster, round, s, c),
        x25519_public_key(sender_secret) == roster.key(s.dealer),
        x25519_public_key(recipient_secret) == roster.key(s.player),
        recipient_secret.len() == 32,
        s.dealer != 0,
        s.player != 0,
        0 <= s.value < ord::<P>(),
        commitment_digest_value::<P>(other) != commitment_digest_value::<P>(c),
    ensures
        subshare_outcome::<P>(recipient_secret, s.player, roster, round, sealed, other) == Err::<
            SubShareView,
            OsstError,
        >(OsstError::InvalidSubShare(s.dealer)),
{
    let p = sealed_plaintext::<P>(s, c);
    lemma_subshare_bytes::<P::Scalar>(s);
    assert(noise_payload(
        recipient_secret,
        x25519_public_key(sender_secret),
        roster.prologue_of(round),
        sealed.ciphertext@,
    ) == Some(p));
    assert(p.subrange(0, 40) =~= subshare_bytes::<P::Scalar>(s));
    assert(p.subrange(40, 72) =~= commitment_digest_value::<P>(c));
}

/// A dealer that the roster does not name is refused, whatever its package holds.
pub proof fn law_unknown_dealer_refused<P: OsstPoint>(
    recipient_secret: Seq<u8>,
    recipient: u32,
    roster: SealedRoster,
    round: u8,
    sealed: SealedSubShare,
    c: CommitmentView,
)
    requires
        !roster.has(sealed.dealer_index),
    ensures
        subshare_outcome::<P>(recipient_secret, recipient, roster, round, sealed, c) == Err::<
            SubShareView,
            OsstError,
        >(OsstError::UnknownParticipant(sealed.dealer_index)),
{
}

/// A package that the cipher does not open is refused, and its dealer named: whatever
/// was changed, the round, the roster, a key or the ciphertext, where Noise reads
/// nothing under the recipient's secret, the dealer's roster key and the prologue of
/// the round. A package for another recipient is refused before that.
pub proof fn law_unopened_package_refused<P: OsstPoint>(
    recipient_secret: Seq<u8>,
    recipient: u32,
    roster: SealedRoster,
    round: u8,
    sealed: SealedSubShare,
    c: CommitmentView,
)
    requires
        roster.has(sealed.dealer_index),
        sealed.recipient_index != recipient || noise_payload(
            recipient_secret,
            roster.key(sealed.dealer_index),
            roster.prologue_of(round),
            sealed.ciphertext@,
        ) is None,
    ensures
        subshare_outcome::<P>(recipient_secret, recipient, roster, round, sealed, c) == Err::<
            SubShareView,
            OsstError,
        >(OsstError::SealedOpenFailed(sealed.dealer_index)),
{
}

/// A package that is accepted is bound to its recipient, its sender and its
/// commitment: the sub-share is for this recipient, from the dealer that the
/// envelope and the commitment name, and lies on the commitment.
pub proof fn law_accepted_subshare_is_bound<P: OsstPoint>(
    recipient_secret: Seq<u8>,
    recipient: u32,
    roster: SealedRoster,
    round: u8,
    sealed: SealedSubShare,
    c: CommitmentView,
    s: SubShareView,
)
    requires
        subshare_outcome::<P>(recipient_secret, recipient, roster, round, sealed, c) == Ok::<
            SubShareView,
            OsstError,
        >(s),
    ensures
        s.player == recipient == sealed.recipient_index,
        s.dealer == c.dealer == sealed.dealer_index,
        roster.has(s.dealer),
        s.value == poly(c.polynomial, recipient as int) % ord::<P>(),
{
}

/// A plaintext is accepted under one envelope alone: one that was read for a dealer
/// and a recipient is refused under any other indices that lead to it.
pub proof fn law_relabelled_package_refused<P: OsstPoint>(
    plaintext: Option<Seq<u8>>,
    dealer: u32,
    recipient: u32,
    other_dealer: u32,
    other_recipient: u32,
    s: SubShareView,
)
    requires
        opened_subshare::<P>(plaintext, dealer, recipient) == Ok::<SubShareView, OsstError>(s),
        other_dealer != dealer || other_recipient != recipient,
    ensures
        opened_subshare::<P>(plaintext, other_dealer, other_recipient) == Err::<
            SubShareView,
            OsstError,
        >(OsstError::SealedOpenFailed(other_dealer)),
{
}

/// A package that opens against an agreed set opens against the commitment that
/// the set has, and only a value on it is accepted.
pub proof fn law_agreed_is_open_subshare<P: OsstPoint>(
    recipient_secret: Seq<u8>,
    recipient: u32,
    roster: SealedRoster,
    round: u8,
    sealed: SealedSubShare,
    agreed: AgreedView,
)
    requires
        agreed.dealers().contains(sealed.dealer_index),
        agreed.commitment(sealed.dealer_index).dealer == sealed.dealer_index,
    ensures
        agreed_package_outcome::<P>(recipient_secret, recipient, roster, round, sealed, agreed)
            is Accepted <==> subshare_outcome::<P>(
            recipient_secret,
            recipient,
            roster,
            round,
            sealed,
            agreed.commitment(sealed.dealer_index),
        ) is Ok,
{
}

/// A prologue is of one ceremony and one round: two rosters have the same prologue for two
/// rounds exactly where they hold the same participants with the same keys, and session
/// and round are the same, where SHA-256 does not collide on the two transcripts.
pub proof fn law_prologue_binds_ceremony(
    a: SealedRoster,
    round_a: u8,
    prologue_a: Vec<u8>,
    b: SealedRoster,
    round_b: u8,
    prologue_b: Vec<u8>,
)
    requires
        call_ensures(SealedRoster::prologue, (&a, round_a), prologue_a),
        call_ensures(SealedRoster::prologue, (&b, round_b), prologue_b),
        sha256_digest(transcript_input(a.list(), a.session())) == sha256_digest(
            transcript_input(b.list(), b.session()),
        ) ==> transcript_input(a.list(), a.session()) == transcript_input(b.list(), b.session()),
    ensures
        prologue_a@ == prologue_b@ <==> {
            &&& a.list().len() == b.list().len()
            &&& forall|i: int|
                0 <= i < a.list().len() ==> (#[trigger] a.list()[i]).0 == b.list()[i].0
                    && a.list()[i].1@ == b.list()[i].1@
            &&& a.session() == b.session()
            &&& round_a == round_b
        },
{
    let (x, y) = (a.list(), b.list());
    if prologue_a@ == prologue_b@ {
        law_prologue_injective(x, a.session(), round_a, y, b.session(), round_b);
        law_transcript_input_injective(x, a.session(), y, b.session());
    }
    if x.len() == y.len() && (forall|i: int|
        0 <= i < x.len() ==> (#[trigger] x[i]).0 == y[i].0 && x[i].1@ == y[i].1@) {
        lemma_same_entries(x, y);
    }
}

/// Participants with the same indices and keys have the same entries.
proof fn lemma_same_entries(a: Seq<(u32, [u8; 32])>, b: Seq<(u32, [u8; 32])>)
    requires
        a.len() == b.len(),
        forall|i: int| 0 <= i < a.len() ==> (#[trigger] a[i]).0 == b[i].0 && a[i].1@ == b[i].1@,
    ensures
        roster_entries(a) == roster_entries(b),
    decreases a.len(),
{
    if a.len() > 0 {
        let (x, y) = (a.drop_last(), b.drop_last());
        assert forall|i: int| 0 <= i < x.len() implies (#[trigger] x[i]).0 == y[i].0 && x[i].1@
            == y[i].1@ by {
            assert(a[i].0 == b[i].0);
        }
        lemma_same_entries(x, y);
        assert(a.last() == a[a.len() - 1] && b.last() == b[b.len() - 1]);
    }
}

/// A roster has the key of every participant that it was made of, and of nobody else.
pub proof fn law_roster_keeps_keys(
    participants: &[(u32, [u8; 32])],
    session_id: [u8; 32],
    roster: SealedRoster,
    i: int,
    index: u32,
    key: Result<&[u8; 32], OsstError>,
)
    requires
        call_ensures(
            SealedRoster::new,
            (participants, session_id),
            Ok::<SealedRoster, OsstError>(roster),
        ),
        call_ensures(SealedRoster::public_key, (&roster, index), key),
    ensures
        0 <= i < participants@.len() && participants@[i].0 == index ==> (key matches Ok(k) && k@
            == participants@[i].1@),
        (forall|j: int| 0 <= j < participants@.len() ==> (#[trigger] participants@[j]).0 != index)
            ==> key == Err::<&[u8; 32], OsstError>(OsstError::UnknownParticipant(index)),
        roster.session() == session_id@,
{
    let list = roster.list();
    let ids = roster_indices(list);
    if 0 <= i < participants@.len() && participants@[i].0 == index {
        assert(participants@.contains(participants@[i]));
        assert(list.contains(participants@[i]));
        let j = choose|j: int| 0 <= j < list.len() && list[j] == participants@[i];
        assert(ids[j] == index);
        assert(ids.contains(index));
        let k = ids.index_of(index);
        assert(0 <= k < ids.len() && ids[k] == index);
        if j < k {
            assert(ids[j] < ids[k]);
        } else if k < j {
            assert(ids[k] < ids[j]);
        }
    }
    if forall|j: int| 0 <= j < participants@.len() ==> (#[trigger] participants@[j]).0 != index {
        if ids.contains(index) {
            let k = choose|k: int| 0 <= k < ids.len() && ids[k] == index;
            assert(list.contains(list[k]));
            assert(participants@.contains(list[k]));
            let j = choose|j: int| 0 <= j < participants@.len() && participants@[j] == list[k];
            assert(participants@[j].0 == index);
        }
    }
}

/// The digest of a package names its ciphertext: digests are equal exactly where the whole
/// ciphertexts are, where SHA-256 does not collide on the two inputs.
pub proof fn law_sealed_digest_binds(a: &[u8], b: &[u8], digest_a: [u8; 32], digest_b: [u8; 32])
    requires
        a@.len() <= u64::MAX,
        b@.len() <= u64::MAX,
        call_ensures(sealed_ciphertext_digest, (a,), digest_a),
        call_ensures(sealed_ciphertext_digest, (b,), digest_b),
        sha256_digest(SEALED_DIGEST_DOMAIN@ + prefixed(a@)) == sha256_digest(
            SEALED_DIGEST_DOMAIN@ + prefixed(b@),
        ) ==> SEALED_DIGEST_DOMAIN@ + prefixed(a@) == SEALED_DIGEST_DOMAIN@ + prefixed(b@),
    ensures
        digest_a@ == digest_b@ <==> a@ == b@,
{
    let none = Seq::<u8>::empty();
    if digest_a@ == digest_b@ {
        lemma_concat_split(
            SEALED_DIGEST_DOMAIN@,
            prefixed(a@),
            SEALED_DIGEST_DOMAIN@,
            prefixed(b@),
        );
        assert(prefixed(a@) + none =~= prefixed(a@));
        assert(prefixed(b@) + none =~= prefixed(b@));
        crate::bytes::lemma_prefixed_split(a@, none, b@, none);
    }
}

/// The key that a participant advertises is the public key of the secret that it derives
/// from the same seed.
pub proof fn law_advertised_key_is_of_secret(
    seed: [u8; 32],
    secret: [u8; 32],
    public: [u8; 32],
)
    requires
        call_ensures(x25519_secret_from_seed, (&seed,), secret),
        call_ensures(x25519_public_from_seed, (&seed,), public),
    ensures
        public@ == x25519_public_key(secret@),
{
}

/// A sub-share is sealed exactly where it comes from the commitment's dealer, and both the
/// recipient and the dealer are on the roster; the envelope carries their indices.
pub proof fn law_sealed_for_roster<P: OsstPoint>(
    secret: [u8; 32],
    roster: SealedRoster,
    round: u8,
    subshare: SubShare<P::Scalar>,
    commitment: DealerCommitment<P>,
    r: Result<SealedSubShare, OsstError>,
)
    requires
        roster.wf(),
        call_ensures(
            seal_subshare::<P>,
            (&secret, &roster, round, &subshare, &commitment),
            r,
        ),
    ensures
        r is Ok <==> subshare@.dealer == commitment.dealer_index && roster_indices(
            roster.list(),
        ).contains(subshare@.player) && roster_indices(roster.list()).contains(subshare@.dealer),
        r matches Ok(sealed) ==> sealed.dealer_index == subshare@.dealer && sealed.recipient_index
            == subshare@.player,
{
}

/// What was sealed is what is opened, from call to call: a sub-share on its commitment,
/// sealed by the dealer whose key the roster has, is returned to the recipient whose key
/// the roster has, in the same round.
pub proof fn law_seal_then_open<P: OsstPoint>(
    dealer_secret: [u8; 32],
    recipient_secret: [u8; 32],
    roster: SealedRoster,
    round: u8,
    subshare: SubShare<P::Scalar>,
    commitment: DealerCommitment<P>,
    sealed: SealedSubShare,
    r: Result<SubShare<P::Scalar>, OsstError>,
)
    requires
        roster.wf(),
        call_ensures(
            seal_subshare::<P>,
            (&dealer_secret, &roster, round, &subshare, &commitment),
            Ok::<SealedSubShare, OsstError>(sealed),
        ),
        call_ensures(
            open_subshare::<P>,
            (&recipient_secret, subshare@.player, &roster, round, &sealed, &commitment),
            r,
        ),
        x25519_public_key(dealer_secret@) == roster.key(subshare@.dealer),
        x25519_public_key(recipient_secret@) == roster.key(subshare@.player),
        subshare@.dealer != 0,
        subshare@.player != 0,
        subshare@.value == poly(logs(commitment.coefficients@), subshare@.player as int) % ord::<
            P,
        >(),
    ensures
        r matches Ok(s) && s@ == subshare@,
{
    law_sealed_opens::<P>(
        sealed,
        dealer_secret@,
        recipient_secret@,
        roster,
        round,
        subshare@,
        commitment@,
    );
}

/// A dealer's round 2 reaches everybody: each participant of the roster, the dealer
/// included, finds in its package the value of the dealer's polynomial at its index.
pub proof fn law_round2_reaches_everybody<P: OsstPoint>(
    dealer: dkg::Dealer<P>,
    dealer_secret: [u8; 32],
    roster: SealedRoster,
    round: u8,
    packages: Vec<SealedSubShare>,
    commitment: DealerCommitment<P>,
    i: int,
    recipient_secret: [u8; 32],
    r: Result<SubShare<P::Scalar>, OsstError>,
)
    requires
        dealer.wf(),
        roster.wf(),
        call_ensures(
            seal_round2::<P>,
            (&dealer, &dealer_secret, &roster, round),
            Ok::<Vec<SealedSubShare>, OsstError>(packages),
        ),
        commitment.dealer_index == dealer@.index,
        logs(commitment.coefficients@) == dealer@.polynomial,
        dealer@.index != 0,
        0 <= i < roster.list().len(),
        x25519_public_key(dealer_secret@) == roster.key(dealer@.index),
        x25519_public_key(recipient_secret@) == roster.key(roster.list()[i].0),
        call_ensures(
            open_subshare::<P>,
            (
                &recipient_secret,
                roster.list()[i].0,
                &roster,
                round,
                &packages@[i],
                &commitment,
            ),
            r,
        ),
    ensures
        packages@.len() == roster.list().len(),
        r matches Ok(s) && s@.dealer == dealer@.index && s@.player == roster.list()[i].0 && s@.value
            == poly(dealer@.polynomial, roster.list()[i].0 as int) % ord::<P>(),
{
    let ids = roster_indices(roster.list());
    let s = dealt::<P>(dealer@, roster.list()[i].0);
    assert(ids[i] == roster.list()[i].0);
    assert(ids.contains(ids[i]));
    assert(commitment@ == (CommitmentView {
        dealer: dealer@.index,
        polynomial: dealer@.polynomial,
    }));
    assert(is_sealed::<P>(packages@[i], dealer_secret@, roster, round, s, commitment@));
    law_sealed_opens::<P>(
        packages@[i],
        dealer_secret@,
        recipient_secret@,
        roster,
        round,
        s,
        commitment@,
    );
}

/// What is accepted was sealed as such: Noise read, under the recipient's secret, the key
/// that the roster has of the dealer and the prologue of the round, exactly the sub-share
/// that is returned and the digest of the commitment that it is held against; and it lies
/// on that commitment.
pub proof fn law_accepted_was_sealed<P: OsstPoint>(
    recipient_secret: [u8; 32],
    recipient: u32,
    roster: SealedRoster,
    round: u8,
    sealed: SealedSubShare,
    commitment: DealerCommitment<P>,
    s: SubShare<P::Scalar>,
)
    requires
        roster.wf(),
        call_ensures(
            open_subshare::<P>,
            (&recipient_secret, recipient, &roster, round, &sealed, &commitment),
            Ok::<SubShare<P::Scalar>, OsstError>(s),
        ),
    ensures
        noise_payload(
            recipient_secret@,
            roster.key(sealed.dealer_index),
            roster.prologue_of(round),
            sealed.ciphertext@,
        ) == Some(subshare_bytes::<P::Scalar>(s@) + commitment_digest_value::<P>(commitment@)),
        s@.player == recipient,
        s@.dealer == sealed.dealer_index,
        s@.dealer == commitment.dealer_index,
        s@.value == poly(logs(commitment.coefficients@), recipient as int) % ord::<P>(),
{
    let p = noise_payload(
        recipient_secret@,
        roster.key(sealed.dealer_index),
        roster.prologue_of(round),
        sealed.ciphertext@,
    )->0;
    crate::reshare::law_subshare_bytes_canonical::<P::Scalar>(p.subrange(0, 40), s@);
    assert(p =~= p.subrange(0, 40) + p.subrange(40, 72));
}

/// An accusation stands: where a package opens to a value that is not on the agreed
/// commitment, the evidence names the dealer, the recipient, the ceremony, the round, the
/// package and the value, and everybody with the same agreed set upholds it.
pub proof fn law_evidence_stands<P: OsstPoint>(
    recipient_secret: [u8; 32],
    recipient: u32,
    roster: SealedRoster,
    round: u8,
    sealed: SealedSubShare,
    agreed: AgreedRound1<P>,
    evidence: BadSubShareEvidence,
    other: AgreedRound1<P>,
    verdict: ComplaintVerdict,
)
    requires
        roster.wf(),
        agreed.wf(),
        other.wf(),
        call_ensures(
            open_subshare_agreed_with_evidence::<P>,
            (&recipient_secret, recipient, &roster, round, &sealed, &agreed),
            Err::<SubShare<P::Scalar>, OpenFailure>(OpenFailure::BadSubShare { evidence }),
        ),
        call_ensures(BadSubShareEvidence::adjudicate::<P>, (&evidence, &other), verdict),
        other@ == agreed@,
    ensures
        verdict == ComplaintVerdict::Upheld,
        evidence.dealer_index == sealed.dealer_index,
        evidence.recipient_index == recipient,
        recipient == sealed.recipient_index,
        evidence.session_id@ == roster.session(),
        evidence.round == round,
        evidence.sealed_digest@ == sealed_digest_value(sealed.ciphertext@),
        evidence.agreed_digest@ == commitment_digest_value::<P>(
            agreed@.commitment(sealed.dealer_index),
        ),
{
}

/// An honest dealer leaves no evidence: a package that Noise reads as a value on the agreed
/// commitment is never an accusation, and one with the agreed commitment's digest is
/// accepted.
pub proof fn law_honest_package_not_accused<P: OsstPoint>(
    recipient_secret: [u8; 32],
    recipient: u32,
    roster: SealedRoster,
    round: u8,
    sealed: SealedSubShare,
    agreed: AgreedRound1<P>,
    k: int,
    digest: Seq<u8>,
    r: Result<SubShare<P::Scalar>, OpenFailure>,
)
    requires
        roster.wf(),
        agreed.wf(),
        roster.has(sealed.dealer_index),
        0 <= k < agreed@.commitments.len(),
        agreed@.commitments[k].dealer == sealed.dealer_index,
        sealed.dealer_index != 0,
        recipient != 0,
        sealed.recipient_index == recipient,
        digest.len() == 32,
        noise_payload(
            recipient_secret@,
            roster.key(sealed.dealer_index),
            roster.prologue_of(round),
            sealed.ciphertext@,
        ) == Some(
            subshare_bytes::<P::Scalar>(
                SubShareView {
                    dealer: sealed.dealer_index,
                    player: recipient,
                    value: poly(agreed@.commitments[k].polynomial, recipient as int) % ord::<P>(),
                },
            ) + digest,
        ),
        call_ensures(
            open_subshare_agreed_with_evidence::<P>,
            (&recipient_secret, recipient, &roster, round, &sealed, &agreed),
            r,
        ),
    ensures
        r matches Err(f) ==> f is Local,
        r is Ok <==> digest == commitment_digest_value::<P>(agreed@.commitments[k]),
        r matches Ok(s) ==> s@.value == poly(
            agreed@.commitments[k].polynomial,
            recipient as int,
        ) % ord::<P>(),
{
    let value = poly(agreed@.commitments[k].polynomial, recipient as int) % ord::<P>();
    let s = SubShareView { dealer: sealed.dealer_index, player: recipient, value };
    let p = subshare_bytes::<P::Scalar>(s) + digest;
    <P::Scalar as OsstScalar>::lemma_order();
    lemma_eqm_mod(poly(agreed@.commitments[k].polynomial, recipient as int), ord::<P>());
    lemma_subshare_bytes::<P::Scalar>(s);
    agreed.lemma_wf();
    dkg::law_agreed_commitment(agreed@, k);
    assert(p.subrange(0, 40) =~= subshare_bytes::<P::Scalar>(s));
    assert(p.subrange(40, 72) =~= digest);
}

/// Why there is no roster: nobody, an index of zero, or an index that two participants have,
/// which is named.
pub proof fn law_no_roster(
    participants: &[(u32, [u8; 32])],
    session_id: [u8; 32],
    r: Result<SealedRoster, OsstError>,
)
    requires
        call_ensures(SealedRoster::new, (participants, session_id), r),
    ensures
        r is Ok <==> {
            &&& participants@.len() > 0
            &&& forall|i: int| 0 <= i < participants@.len() ==> (#[trigger] participants@[i]).0 != 0
            &&& forall|i: int, j: int|
                0 <= i < j < participants@.len() ==> (#[trigger] participants@[i]).0 != (
                #[trigger] participants@[j]).0
        },
        r == Err::<SealedRoster, OsstError>(OsstError::EmptyContributions) <==> participants@.len()
            == 0,
        r == Err::<SealedRoster, OsstError>(OsstError::InvalidIndex) ==> exists|i: int|
            0 <= i < participants@.len() && (#[trigger] participants@[i]).0 == 0,
        r matches Err(OsstError::DuplicateIndex(d)) ==> exists|i: int|
            0 <= i < participants@.len() && (#[trigger] participants@[i]).0 == d,
{
    broadcast use vstd::seq_lib::group_to_multiset_ensures;

    let ps = participants@;
    let ids = roster_indices(ps);
    if r is Ok {
        assert forall|i: int| 0 <= i < ps.len() implies (#[trigger] ps[i]).0 != 0 by {
            assert(ids.contains(ids[i]));
        }
        assert forall|i: int, j: int| 0 <= i < j < ps.len() implies (#[trigger] ps[i]).0 != (
        #[trigger] ps[j]).0 by {
            assert(ids[i] != ids[j]);
        }
    }
    if (forall|i: int| 0 <= i < ps.len() ==> (#[trigger] ps[i]).0 != 0) && (forall|
        i: int,
        j: int,
    |
        0 <= i < j < ps.len() ==> (#[trigger] ps[i]).0 != (#[trigger] ps[j]).0) {
        assert(!ids.contains(0)) by {
            if ids.contains(0) {
                let k = choose|k: int| 0 <= k < ids.len() && ids[k] == 0;
                assert(ps[k].0 == 0);
            }
        }
        assert forall|i: int, j: int| 0 <= i < ids.len() && 0 <= j < ids.len() && i != j implies ids[i]
            != ids[j] by {
            if i < j {
                assert(ps[i].0 != ps[j].0);
            } else {
                assert(ps[j].0 != ps[i].0);
            }
        }
    }
    match r {
        Err(OsstError::InvalidIndex) => {
            let k = choose|k: int| 0 <= k < ids.len() && ids[k] == 0;
            assert(ps[k].0 == 0);
        },
        Err(OsstError::DuplicateIndex(d)) => {
            assert(ids.to_multiset().count(d) > 0);
            assert(ids.contains(d));
            let k = choose|k: int| 0 <= k < ids.len() && ids[k] == d;
            assert(ps[k].0 == d);
        },
        _ => {},
    }
}

/// With evidence or without, a package is opened alike: what the one accepts the other does,
/// a local refusal is the same error, and an accusation is a bad sub-share of the dealer.
pub proof fn law_opened_alike<P: OsstPoint>(
    recipient_secret: [u8; 32],
    recipient: u32,
    roster: SealedRoster,
    round: u8,
    sealed: SealedSubShare,
    agreed: AgreedRound1<P>,
    with_evidence: Result<SubShare<P::Scalar>, OpenFailure>,
    plain: Result<SubShare<P::Scalar>, OsstError>,
)
    requires
        roster.wf(),
        agreed.wf(),
        call_ensures(
            open_subshare_agreed_with_evidence::<P>,
            (&recipient_secret, recipient, &roster, round, &sealed, &agreed),
            with_evidence,
        ),
        call_ensures(
            open_subshare_agreed::<P>,
            (&recipient_secret, recipient, &roster, round, &sealed, &agreed),
            plain,
        ),
    ensures
        with_evidence is Ok <==> plain is Ok,
        with_evidence is Ok ==> with_evidence->Ok_0@ == plain->Ok_0@,
        with_evidence matches Err(OpenFailure::Local(e)) ==> plain == Err::<
            SubShare<P::Scalar>,
            OsstError,
        >(e),
        with_evidence matches Err(OpenFailure::BadSubShare { evidence }) ==> plain == Err::<
            SubShare<P::Scalar>,
            OsstError,
        >(OsstError::InvalidSubShare(sealed.dealer_index)),
{
}

/// The agreed commitment alone counts: where the agreed set has a commitment of the dealer,
/// a package is accepted against the set exactly where it is accepted against that
/// commitment.
pub proof fn law_agreed_commitment_counts<P: OsstPoint>(
    recipient_secret: [u8; 32],
    recipient: u32,
    roster: SealedRoster,
    round: u8,
    sealed: SealedSubShare,
    agreed: AgreedRound1<P>,
    k: int,
    commitment: DealerCommitment<P>,
    against_set: Result<SubShare<P::Scalar>, OsstError>,
    against_commitment: Result<SubShare<P::Scalar>, OsstError>,
)
    requires
        roster.wf(),
        agreed.wf(),
        0 <= k < agreed@.commitments.len(),
        agreed@.commitments[k].dealer == sealed.dealer_index,
        commitment@ == agreed@.commitments[k],
        call_ensures(
            open_subshare_agreed::<P>,
            (&recipient_secret, recipient, &roster, round, &sealed, &agreed),
            against_set,
        ),
        call_ensures(
            open_subshare::<P>,
            (&recipient_secret, recipient, &roster, round, &sealed, &commitment),
            against_commitment,
        ),
    ensures
        against_set is Ok <==> against_commitment is Ok,
        against_set is Ok ==> against_set->Ok_0@ == against_commitment->Ok_0@,
        against_set is Err ==> against_set->Err_0 == against_commitment->Err_0,
{
    agreed.lemma_wf();
    dkg::law_agreed_commitment(agreed@, k);
}

/// A round 2 is sealed exactly for a dealer on the roster, whoever else is on it.
pub proof fn law_round2_is_sealed<P: OsstPoint>(
    dealer: dkg::Dealer<P>,
    secret: [u8; 32],
    roster: SealedRoster,
    round: u8,
    r: Result<Vec<SealedSubShare>, OsstError>,
)
    requires
        dealer.wf(),
        roster.wf(),
        call_ensures(seal_round2::<P>, (&dealer, &secret, &roster, round), r),
    ensures
        r is Ok <==> roster_indices(roster.list()).contains(dealer@.index),
        r matches Ok(packages) ==> packages@.len() == roster.list().len() && forall|i: int|
            0 <= i < packages@.len() ==> (#[trigger] packages@[i]).dealer_index == dealer@.index
                && packages@[i].recipient_index == roster.list()[i].0,
        r matches Err(e) ==> e == OsstError::UnknownParticipant(dealer@.index),
{
    if r is Ok {
        let packages = r->Ok_0;
        assert forall|i: int| 0 <= i < packages@.len() implies (
        #[trigger] packages@[i]).dealer_index == dealer@.index && packages@[i].recipient_index
            == roster.list()[i].0 by {
            assert(is_sealed::<P>(
                packages@[i],
                secret@,
                roster,
                round,
                dealt::<P>(dealer@, roster.list()[i].0),
                CommitmentView { dealer: dealer@.index, polynomial: dealer@.polynomial },
            ));
        }
    }
}

/// Why an opened plaintext is refused: one of another length, or whose indices are not the
/// envelope's, as a package that did not open; one whose commitment, digest or value is
/// wrong as a bad sub-share. Everything else is accepted.
pub proof fn law_opened_plaintext<P: OsstPoint>(
    bytes: Vec<u8>,
    dealer: u32,
    recipient: u32,
    commitment: DealerCommitment<P>,
    value: int,
    digest: Seq<u8>,
    r: Result<SubShare<P::Scalar>, OsstError>,
)
    requires
        call_ensures(
            accept_opened::<P>,
            (Some::<Vec<u8>>(bytes), dealer, recipient, &commitment),
            r,
        ),
    ensures
        bytes@.len() != 72 ==> r == Err::<SubShare<P::Scalar>, OsstError>(
            OsstError::SealedOpenFailed(dealer),
        ),
        dealer != 0 && recipient != 0 && 0 <= value < ord::<P>() && digest.len() == 32 && bytes@
            == subshare_bytes::<P::Scalar>(
            SubShareView { dealer, player: recipient, value },
        ) + digest ==> if commitment.dealer_index == dealer && digest == commitment_digest_value::<
            P,
        >(commitment@) && value == poly(logs(commitment.coefficients@), recipient as int) % ord::<
            P,
        >() {
            r matches Ok(s) && s@.value == value && s@.dealer == dealer && s@.player == recipient
        } else {
            r == Err::<SubShare<P::Scalar>, OsstError>(OsstError::InvalidSubShare(dealer))
        },
{
    let s = SubShareView { dealer, player: recipient, value };
    if dealer != 0 && recipient != 0 && 0 <= value < ord::<P>() && digest.len() == 32 && bytes@
        == subshare_bytes::<P::Scalar>(s) + digest {
        lemma_subshare_bytes::<P::Scalar>(s);
        assert(bytes@.subrange(0, 40) =~= subshare_bytes::<P::Scalar>(s));
        assert(bytes@.subrange(40, 72) =~= digest);
    }
}

/// The domains of the hashes and of the key derivation, as text.
pub proof fn law_domain_texts()
    ensures
        X25519_DERIVE_INFO@ == ascii("frostito/sealed/x25519/v1"@),
        TRANSCRIPT_DOMAIN@ == ascii("frostito/sealed/transcript/v1"@),
        PROLOGUE_DOMAIN@ == ascii("frostito/sealed/prologue/v1"@),
        SEALED_DIGEST_DOMAIN@ == ascii("frostito/sealed/ciphertext/v1"@),
{
    reveal_strlit("frostito/sealed/x25519/v1");
    reveal_strlit("frostito/sealed/transcript/v1");
    reveal_strlit("frostito/sealed/prologue/v1");
    reveal_strlit("frostito/sealed/ciphertext/v1");
    assert(X25519_DERIVE_INFO@ =~= ascii("frostito/sealed/x25519/v1"@));
    assert(TRANSCRIPT_DOMAIN@ =~= ascii("frostito/sealed/transcript/v1"@));
    assert(PROLOGUE_DOMAIN@ =~= ascii("frostito/sealed/prologue/v1"@));
    assert(SEALED_DIGEST_DOMAIN@ =~= ascii("frostito/sealed/ciphertext/v1"@));
}

} // verus!
