//! Headers, votes and certificates, and the rules that they must keep.
use vstd::bytes::{spec_u32_to_le_bytes, spec_u64_to_le_bytes, u32_to_le_bytes, u64_to_le_bytes};
use vstd::prelude::*;

use crate::collections::{KeyMap, KeySet};
use crate::committee::{Committee, Round, Weight, WorkerId};
use crate::crypto::{
    digest_of, ed25519_accepts, extend_bytes, extend_list, hash, signature_bytes, votes_accepted,
    zero_digest, zero_key, zero_signature, Digest, PublicKey, Signature,
};
use crate::error::DagError;
use crate::keys::{ordered, Key};

verus! {

/// A proposal of one authority for one round.
pub struct Header {
    pub author: PublicKey,
    pub round: Round,
    /// The batches that the header brings, each with the worker that holds it.
    pub payload: KeyMap<Digest, WorkerId>,
    /// The digests of the certificates that the header builds on.
    pub parents: KeySet<Digest>,
    pub id: Digest,
    pub signature: Signature,
    /// The vertices that open the current solid step and that this header links to.
    pub solid_step_vertices: KeySet<Digest>,
    /// What this header hands on to its children's solid-step vertices.
    pub solid_step_vertices_merged: KeySet<Digest>,
    /// The vertices of the current solid wave that this header links to.
    pub solid_wave_vertices: KeySet<Digest>,
    /// What this header hands on to its children's solid-wave vertices.
    pub solid_wave_vertices_merged: KeySet<Digest>,
}

/// What a header holds.
#[verifier::ext_equal]
pub struct HeaderView {
    pub author: PublicKey,
    pub round: Round,
    pub payload: Map<Digest, WorkerId>,
    pub parents: Set<Digest>,
    pub id: Digest,
    pub signature: Signature,
    pub solid_step_vertices: Set<Digest>,
    pub solid_step_vertices_merged: Set<Digest>,
    pub solid_wave_vertices: Set<Digest>,
    pub solid_wave_vertices_merged: Set<Digest>,
}

impl View for Header {
    type V = HeaderView;

    open spec fn view(&self) -> HeaderView {
        HeaderView {
            author: self.author,
            round: self.round,
            payload: self.payload@,
            parents: self.parents@,
            id: self.id,
            signature: self.signature,
            solid_step_vertices: self.solid_step_vertices@,
            solid_step_vertices_merged: self.solid_step_vertices_merged@,
            solid_wave_vertices: self.solid_wave_vertices@,
            solid_wave_vertices_merged: self.solid_wave_vertices_merged@,
        }
    }
}

/// The bytes of a payload, in the order given: each batch followed by its worker.
pub open spec fn payload_bytes(keys: Seq<Digest>, payload: Map<Digest, WorkerId>) -> Seq<u8>
    decreases keys.len(),
{
    if keys.len() == 0 {
        seq![]
    } else {
        payload_bytes(keys.drop_last(), payload) + keys.last().0@ + spec_u32_to_le_bytes(
            payload[keys.last()],
        )
    }
}

/// The bytes of a list of digests.
pub open spec fn digests_bytes(digests: Seq<Digest>) -> Seq<u8>
    decreases digests.len(),
{
    if digests.len() == 0 {
        seq![]
    } else {
        digests_bytes(digests.drop_last()) + digests.last().0@
    }
}

impl HeaderView {
    /// What the id of a header covers: its author, its round, its payload and its parents.
    pub open spec fn message(self) -> Seq<u8> {
        self.author.0@ + spec_u64_to_le_bytes(self.round) + payload_bytes(
            ordered(self.payload.dom()),
            self.payload,
        ) + digests_bytes(ordered(self.parents))
    }

    pub open spec fn digest(self) -> Digest {
        digest_of(self.message())
    }

    /// The header without vertices, id and signature.
    pub open spec fn bare(
        author: PublicKey,
        round: Round,
        payload: Map<Digest, WorkerId>,
        parents: Set<Digest>,
    ) -> HeaderView {
        HeaderView {
            author,
            round,
            payload,
            parents,
            id: zero_digest(),
            signature: zero_signature(),
            solid_step_vertices: Set::empty(),
            solid_step_vertices_merged: Set::empty(),
            solid_wave_vertices: Set::empty(),
            solid_wave_vertices_merged: Set::empty(),
        }
    }

    /// What becomes of a header, by the validity of its signature.
    pub open spec fn verdict(self, committee: &Committee, signature_valid: bool) -> Result<
        (),
        DagError,
    > {
        if self.digest() != self.id {
            Err(DagError::InvalidHeaderId)
        } else if committee.stake_of(self.author) == 0 {
            Err(DagError::UnknownAuthority(self.author))
        } else if exists|batch: Digest| #[trigger]
            self.payload.contains_key(batch) && !committee.has_worker(
                self.author,
                self.payload[batch],
            ) {
            Err(DagError::MalformedHeader(self.id))
        } else if !signature_valid {
            Err(DagError::InvalidSignature)
        } else {
            Ok(())
        }
    }

    /// The author has signed the id.
    pub open spec fn is_signed(self) -> bool {
        ed25519_accepts(self.author.0@, self.id.0@, signature_bytes(self.signature))
    }
}

impl Header {
    /// A header with its id, still to be signed.
    pub fn new(
        author: PublicKey,
        round: Round,
        payload: KeyMap<Digest, WorkerId>,
        parents: KeySet<Digest>,
    ) -> (r: Self)
        ensures
            r@ == (HeaderView {
                id: HeaderView::bare(author, round, payload@, parents@).digest(),
                ..HeaderView::bare(author, round, payload@, parents@)
            }),
            r.id == r@.digest(),
    {
        let zero = Digest::default();
        let signature = Signature::default();
        let mut header = Header {
            author,
            round,
            payload,
            parents,
            id: zero,
            signature,
            solid_step_vertices: KeySet::new(),
            solid_step_vertices_merged: KeySet::new(),
            solid_wave_vertices: KeySet::new(),
            solid_wave_vertices_merged: KeySet::new(),
        };
        assert(header@ =~= HeaderView::bare(author, round, payload@, parents@));
        header.id = header.digest();
        header
    }

    /// Puts the author's signature on the header.
    pub fn sign(&mut self, signature: Signature)
        ensures
            final(self)@ == (HeaderView { signature, ..old(self)@ }),
    {
        self.signature = signature;
    }

    /// The digest of the header, which its id must be.
    pub fn digest(&self) -> (r: Digest)
        ensures
            r == self@.digest(),
    {
        let mut bytes: Vec<u8> = Vec::new();
        extend_bytes(&mut bytes, &self.author.0);
        extend_list(&mut bytes, &u64_to_le_bytes(self.round));
        let ghost start = bytes@;
        proof {
            use_type_invariant(&self.payload);
            self.payload.lemma_entries();
            use_type_invariant(&self.parents);
            self.parents.lemma_items();
        }
        let ghost keys = self.payload.keys();
        let n: usize = self.payload.len();
        let mut i: usize = 0;
        assert(bytes@ =~= start + payload_bytes(keys.take(0), self.payload@));
        while i < n
            invariant
                i <= n,
                n == keys.len(),
                keys == self.payload.keys(),
                bytes@ == start + payload_bytes(keys.take(i as int), self.payload@),
            decreases n - i,
        {
            let batch: Digest = self.payload.key_at(i);
            let worker: WorkerId = *self.payload.value_at(i);
            extend_bytes(&mut bytes, &batch.0);
            extend_list(&mut bytes, &u32_to_le_bytes(worker));
            i = i + 1;
            proof {
                assert(keys.take(i as int).drop_last() =~= keys.take(i - 1));
                assert(bytes@ =~= start + payload_bytes(keys.take(i as int), self.payload@));
            }
        }
        assert(keys.take(n as int) =~= keys);
        let ghost middle = bytes@;
        let ghost parents = self.parents.items();
        let m: usize = self.parents.len();
        let mut j: usize = 0;
        assert(bytes@ =~= middle + digests_bytes(parents.take(0)));
        while j < m
            invariant
                j <= m,
                m == parents.len(),
                parents == self.parents.items(),
                bytes@ == middle + digests_bytes(parents.take(j as int)),
            decreases m - j,
        {
            let parent: Digest = self.parents.at(j);
            extend_bytes(&mut bytes, &parent.0);
            j = j + 1;
            proof {
                assert(parents.take(j as int).drop_last() =~= parents.take(j - 1));
                assert(bytes@ =~= middle + digests_bytes(parents.take(j as int)));
            }
        }
        assert(parents.take(m as int) =~= parents);
        assert(bytes@ =~= self@.message());
        hash(&bytes)
    }

    /// The rules for a header, given whether its signature is valid.
    pub fn verify_with(&self, committee: &Committee, signature_valid: bool) -> (r: Result<
        (),
        DagError,
    >)
        ensures
            r == self@.verdict(committee, signature_valid),
    {
        // The id must be well formed.
        if !self.digest().same(&self.id) {
            return Err(DagError::InvalidHeaderId);
        }
        // The author must have voting rights.
        if committee.stake(&self.author) == 0 {
            return Err(DagError::UnknownAuthority(self.author));
        }
        // Every worker must be one of the author's.
        proof {
            use_type_invariant(&self.payload);
            self.payload.lemma_entries();
        }
        let n: usize = self.payload.len();
        let mut i: usize = 0;
        while i < n
            invariant
                i <= n,
                n == self.payload.keys().len(),
                self.payload.well_formed(),
                self@.digest() == self.id,
                committee.stake_of(self.author) != 0,
                forall|j: int|
                    0 <= j < i ==> committee.has_worker(
                        self.author,
                        self.payload@[#[trigger] self.payload.keys()[j]],
                    ),
            decreases n - i,
        {
            let worker: WorkerId = *self.payload.value_at(i);
            if !committee.worker(&self.author, &worker) {
                proof {
                    self.payload.lemma_entries();
                    assert(self@.payload.contains_key(self.payload.keys()[i as int]));
                }
                return Err(DagError::MalformedHeader(self.id));
            }
            i = i + 1;
        }
        proof {
            self.payload.lemma_entries();
            assert forall|batch: Digest| self@.payload.contains_key(batch) implies
                committee.has_worker(self.author, self@.payload[batch]) by {
                assert(self.payload.keys().to_set().contains(batch));
                let j = choose|j: int|
                    0 <= j < self.payload.keys().len() && self.payload.keys()[j] == batch;
                assert(self.payload@[self.payload.keys()[j]] == self@.payload[batch]);
            }
        }
        if !signature_valid {
            return Err(DagError::InvalidSignature);
        }
        Ok(())
    }

    /// Checks the header against the rules and its signature.
    pub fn verify(&self, committee: &Committee) -> (r: Result<(), DagError>)
        ensures
            r == self@.verdict(committee, self@.is_signed()),
    {
        match self.verify_with(committee, true) {
            Err(e) => Err(e),
            Ok(()) => {
                if self.signature.verify(&self.id, &self.author) {
                    Ok(())
                } else {
                    Err(DagError::InvalidSignature)
                }
            },
        }
    }

    /// Adds to the vertices of the solid step.
    pub fn store_solid_step_vertex(&mut self, vertices: KeySet<Digest>)
        ensures
            final(self)@ == (HeaderView {
                solid_step_vertices: old(self)@.solid_step_vertices.union(vertices@),
                ..old(self)@
            }),
    {
        self.solid_step_vertices.extend(&vertices);
    }

    /// Adds to what is handed on for the solid step.
    pub fn store_solid_step_merged_vertices(&mut self, vertices: KeySet<Digest>)
        ensures
            final(self)@ == (HeaderView {
                solid_step_vertices_merged: old(self)@.solid_step_vertices_merged.union(vertices@),
                ..old(self)@
            }),
    {
        self.solid_step_vertices_merged.extend(&vertices);
    }

    /// Adds to the vertices of the solid wave.
    pub fn store_solid_wave_vertex(&mut self, vertices: KeySet<Digest>)
        ensures
            final(self)@ == (HeaderView {
                solid_wave_vertices: old(self)@.solid_wave_vertices.union(vertices@),
                ..old(self)@
            }),
    {
        self.solid_wave_vertices.extend(&vertices);
    }

    /// Adds to what is handed on for the solid wave.
    pub fn store_solid_wave_merged_vertices(&mut self, vertices: KeySet<Digest>)
        ensures
            final(self)@ == (HeaderView {
                solid_wave_vertices_merged: old(self)@.solid_wave_vertices_merged.union(vertices@),
                ..old(self)@
            }),
    {
        self.solid_wave_vertices_merged.extend(&vertices);
    }
}

impl Default for Header {
    fn default() -> (r: Self)
        ensures
            r@ == HeaderView::bare(zero_key(), 0, Map::empty(), Set::empty()),
    {
        let author = PublicKey::default();
        let id = Digest::default();
        let signature = Signature::default();
        Header {
            author,
            round: 0,
            payload: KeyMap::new(),
            parents: KeySet::new(),
            id,
            signature,
            solid_step_vertices: KeySet::new(),
            solid_step_vertices_merged: KeySet::new(),
            solid_wave_vertices: KeySet::new(),
            solid_wave_vertices_merged: KeySet::new(),
        }
    }
}

impl Clone for Header {
    fn clone(&self) -> (r: Self)
        ensures
            r@ == self@,
    {
        Header {
            author: self.author,
            round: self.round,
            payload: self.payload.clone(),
            parents: self.parents.clone(),
            id: self.id,
            signature: self.signature,
            solid_step_vertices: self.solid_step_vertices.clone(),
            solid_step_vertices_merged: self.solid_step_vertices_merged.clone(),
            solid_wave_vertices: self.solid_wave_vertices.clone(),
            solid_wave_vertices_merged: self.solid_wave_vertices_merged.clone(),
        }
    }
}

/// What the aggregated certificates hand to the proposer for its next header.
pub struct ProposalParents {
    pub parents: Vec<Digest>,
    pub solid_step_union: KeySet<Digest>,
    pub solid_step_sources: KeyMap<Digest, StepVertexSource>,
    pub solid_wave_union: KeySet<Digest>,
}

/// What a parent snapshot holds.
#[verifier::ext_equal]
pub struct ProposalParentsView {
    pub parents: Seq<Digest>,
    pub solid_step_union: Set<Digest>,
    pub solid_step_sources: Map<Digest, StepVertexSource>,
    pub solid_wave_union: Set<Digest>,
}

impl View for ProposalParents {
    type V = ProposalParentsView;

    open spec fn view(&self) -> ProposalParentsView {
        ProposalParentsView {
            parents: self.parents@,
            solid_step_union: self.solid_step_union@,
            solid_step_sources: self.solid_step_sources@,
            solid_wave_union: self.solid_wave_union@,
        }
    }
}

impl ProposalParents {
    /// A snapshot of parents alone.
    pub fn from(parents: Vec<Digest>) -> (r: Self)
        ensures
            r@ == (ProposalParentsView {
                parents: parents@,
                solid_step_union: Set::empty(),
                solid_step_sources: Map::empty(),
                solid_wave_union: Set::empty(),
            }),
    {
        ProposalParents {
            parents,
            solid_step_union: KeySet::new(),
            solid_step_sources: KeyMap::new(),
            solid_wave_union: KeySet::new(),
        }
    }
}

impl Default for ProposalParents {
    fn default() -> (r: Self)
        ensures
            r@ == (ProposalParentsView {
                parents: seq![],
                solid_step_union: Set::empty(),
                solid_step_sources: Map::empty(),
                solid_wave_union: Set::empty(),
            }),
    {
        let r: ProposalParents = ProposalParents::from(Vec::new());
        assert(r@.parents =~= seq![]);
        r
    }
}

impl Clone for ProposalParents {
    fn clone(&self) -> (r: Self)
        ensures
            r@ == self@,
    {
        ProposalParents {
            parents: copy_digests(&self.parents),
            solid_step_union: self.solid_step_union.clone(),
            solid_step_sources: self.solid_step_sources.clone(),
            solid_wave_union: self.solid_wave_union.clone(),
        }
    }
}

/// How a solid-step vertex reached the aggregator.
#[derive(Clone, Copy, Debug, PartialEq, Eq, Structural)]
pub struct StepVertexSource {
    pub direct_weak: bool,
    pub relay_merged: bool,
}

impl StepVertexSource {
    pub fn direct_weak() -> (r: Self)
        ensures
            r == (StepVertexSource { direct_weak: true, relay_merged: false }),
    {
        StepVertexSource { direct_weak: true, relay_merged: false }
    }

    pub fn relay_merged() -> (r: Self)
        ensures
            r == (StepVertexSource { direct_weak: false, relay_merged: true }),
    {
        StepVertexSource { direct_weak: false, relay_merged: true }
    }

    /// Adds the ways of `other`.
    pub fn merge(&mut self, other: Self)
        ensures
            final(self).direct_weak == (old(self).direct_weak || other.direct_weak),
            final(self).relay_merged == (old(self).relay_merged || other.relay_merged),
    {
        self.direct_weak = self.direct_weak || other.direct_weak;
        self.relay_merged = self.relay_merged || other.relay_merged;
    }

    pub fn is_direct_weak_only(&self) -> (r: bool)
        ensures
            r == (self.direct_weak && !self.relay_merged),
    {
        self.direct_weak && !self.relay_merged
    }

    pub fn is_relay_only(&self) -> (r: bool)
        ensures
            r == (self.relay_merged && !self.direct_weak),
    {
        self.relay_merged && !self.direct_weak
    }

    pub fn is_both(&self) -> (r: bool)
        ensures
            r == (self.direct_weak && self.relay_merged),
    {
        self.direct_weak && self.relay_merged
    }
}

impl Default for StepVertexSource {
    fn default() -> (r: Self)
        ensures
            r == (StepVertexSource { direct_weak: false, relay_merged: false }),
    {
        StepVertexSource { direct_weak: false, relay_merged: false }
    }
}

/// What a vote or a certificate for a header covers.
pub open spec fn endorsement(id: Digest, round: Round, origin: PublicKey) -> Seq<u8> {
    id.0@ + spec_u64_to_le_bytes(round) + origin.0@
}

/// Hashes what a vote or a certificate for a header covers.
fn endorsement_digest(id: &Digest, round: Round, origin: &PublicKey) -> (r: Digest)
    ensures
        r == digest_of(endorsement(*id, round, *origin)),
{
    let mut bytes: Vec<u8> = Vec::new();
    extend_bytes(&mut bytes, &id.0);
    extend_list(&mut bytes, &u64_to_le_bytes(round));
    extend_bytes(&mut bytes, &origin.0);
    assert(bytes@ =~= endorsement(*id, round, *origin));
    hash(&bytes)
}

/// The vote of `author` for the header `id` of `origin`.
#[derive(Clone, Copy, Debug)]
pub struct Vote {
    pub id: Digest,
    pub round: Round,
    pub origin: PublicKey,
    pub author: PublicKey,
    pub signature: Signature,
}

impl Vote {
    /// What the vote's signature covers.
    pub open spec fn spec_digest(self) -> Digest {
        digest_of(endorsement(self.id, self.round, self.origin))
    }

    /// The voter has signed the vote.
    pub open spec fn is_signed(self) -> bool {
        ed25519_accepts(self.author.0@, self.spec_digest().0@, signature_bytes(self.signature))
    }

    /// What becomes of a vote, by the validity of its signature.
    pub open spec fn verdict(self, committee: &Committee, signature_valid: bool) -> Result<
        (),
        DagError,
    > {
        if committee.stake_of(self.author) == 0 {
            Err(DagError::UnknownAuthority(self.author))
        } else if !signature_valid {
            Err(DagError::InvalidSignature)
        } else {
            Ok(())
        }
    }

    /// The vote of `author` for `header`, still to be signed.
    pub fn new(header: &Header, author: &PublicKey) -> (r: Self)
        ensures
            r == (Vote {
                id: header.id,
                round: header.round,
                origin: header.author,
                author: *author,
                signature: zero_signature(),
            }),
    {
        let signature = Signature::default();
        Vote { id: header.id, round: header.round, origin: header.author, author: *author, signature }
    }

    /// Puts the voter's signature on the vote.
    pub fn sign(&mut self, signature: Signature)
        ensures
            *final(self) == (Vote { signature, ..*old(self) }),
    {
        self.signature = signature;
    }

    /// The digest that the voter signs.
    pub fn digest(&self) -> (r: Digest)
        ensures
            r == self.spec_digest(),
    {
        endorsement_digest(&self.id, self.round, &self.origin)
    }

    /// The rules for a vote, given whether its signature is valid.
    pub fn verify_with(&self, committee: &Committee, signature_valid: bool) -> (r: Result<
        (),
        DagError,
    >)
        ensures
            r == self.verdict(committee, signature_valid),
    {
        if committee.stake(&self.author) == 0 {
            return Err(DagError::UnknownAuthority(self.author));
        }
        if !signature_valid {
            return Err(DagError::InvalidSignature);
        }
        Ok(())
    }

    /// Checks the vote against the rules and its signature.
    pub fn verify(&self, committee: &Committee) -> (r: Result<(), DagError>)
        ensures
            r == self.verdict(committee, self.is_signed()),
    {
        match self.verify_with(committee, true) {
            Err(e) => Err(e),
            Ok(()) => {
                if self.signature.verify(&self.digest(), &self.author) {
                    Ok(())
                } else {
                    Err(DagError::InvalidSignature)
                }
            },
        }
    }
}

/// A header with a quorum of votes.
pub struct Certificate {
    pub header: Header,
    pub votes: Vec<(PublicKey, Signature)>,
}

/// What a certificate holds.
#[verifier::ext_equal]
pub struct CertificateView {
    pub header: HeaderView,
    pub votes: Seq<(PublicKey, Signature)>,
}

impl View for Certificate {
    type V = CertificateView;

    open spec fn view(&self) -> CertificateView {
        CertificateView { header: self.header@, votes: self.votes@ }
    }
}

/// The stake behind a list of votes, or the first vote that breaks the rules: one by an authority
/// that has voted before in the list, or by one without stake.
pub open spec fn votes_weight(votes: Seq<(PublicKey, Signature)>, committee: &Committee) -> Result<
    nat,
    DagError,
>
    decreases votes.len(),
{
    if votes.len() == 0 {
        Ok(0)
    } else {
        match votes_weight(votes.drop_last(), committee) {
            Err(e) => Err(e),
            Ok(weight) => {
                let name = votes.last().0;
                if voters(votes.drop_last()).contains(name) {
                    Err(DagError::AuthorityReuse(name))
                } else if committee.stake_of(name) == 0 {
                    Err(DagError::UnknownAuthority(name))
                } else {
                    Ok(weight + committee.stake_of(name) as nat)
                }
            },
        }
    }
}

/// The authorities that have voted.
pub open spec fn voters(votes: Seq<(PublicKey, Signature)>) -> Set<PublicKey> {
    votes.map_values(|vote: (PublicKey, Signature)| vote.0).to_set()
}

impl CertificateView {
    pub open spec fn round(self) -> Round {
        self.header.round
    }

    pub open spec fn origin(self) -> PublicKey {
        self.header.author
    }

    /// The name of the certificate.
    pub open spec fn digest(self) -> Digest {
        digest_of(endorsement(self.header.id, self.header.round, self.header.author))
    }

    /// The certificate of `name` in round zero, which stands without votes.
    pub open spec fn genesis(name: PublicKey) -> CertificateView {
        CertificateView {
            header: HeaderView::bare(name, 0, Map::empty(), Set::empty()),
            votes: seq![],
        }
    }

    /// The certificate names the same header as another.
    pub open spec fn names_same(self, other: CertificateView) -> bool {
        &&& self.header.id == other.header.id
        &&& self.header.round == other.header.round
        &&& self.header.author == other.header.author
    }

    /// The certificate names the genesis header of some member.
    pub open spec fn is_genesis(self, committee: &Committee) -> bool {
        &&& committee.members().contains(self.header.author)
        &&& self.names_same(CertificateView::genesis(self.header.author))
    }

    /// What becomes of a certificate, by the validity of the signatures of its votes.
    pub open spec fn verdict(self, committee: &Committee, votes_valid: bool) -> Result<
        (),
        DagError,
    > {
        if self.is_genesis(committee) {
            Ok(())
        } else {
            match self.header.verdict(committee, self.header.is_signed()) {
                Err(e) => Err(e),
                Ok(()) => match votes_weight(self.votes, committee) {
                    Err(e) => Err(e),
                    Ok(weight) => if weight < committee.quorum_threshold {
                        Err(DagError::CertificateRequiresQuorum)
                    } else if !votes_valid {
                        Err(DagError::InvalidSignature)
                    } else {
                        Ok(())
                    },
                },
            }
        }
    }
}

impl Certificate {
    /// The certificates of round zero, one for each member.
    pub fn genesis(committee: &Committee) -> (r: Vec<Self>)
        ensures
            r@.len() == ordered(committee.members()).len(),
            forall|i: int|
                0 <= i < r@.len() ==> (#[trigger] r@[i])@ == CertificateView::genesis(
                    ordered(committee.members())[i],
                ),
    {
        let names: Vec<PublicKey> = committee.keys();
        let mut r: Vec<Certificate> = Vec::new();
        let mut i: usize = 0;
        while i < names.len()
            invariant
                i <= names@.len(),
                r@.len() == i,
                forall|j: int|
                    0 <= j < i ==> (#[trigger] r@[j])@ == CertificateView::genesis(names@[j]),
            decreases names@.len() - i,
        {
            let mut certificate = Certificate::default();
            certificate.header.author = names[i];
            assert(certificate@ =~= CertificateView::genesis(names@[i as int]));
            r.push(certificate);
            i = i + 1;
        }
        r
    }

    /// Says whether the certificate names the genesis header of some member.
    pub fn is_genesis(&self, committee: &Committee) -> (r: bool)
        ensures
            r == self@.is_genesis(committee),
    {
        self.header.id.same(&Digest::default()) && self.header.round == 0
            && committee.authorities.contains_key(&self.header.author)
    }

    /// The rules for a certificate, given whether the signatures of its votes are valid.
    pub fn verify_with(&self, committee: &Committee, votes_valid: bool) -> (r: Result<(), DagError>)
        ensures
            r == self@.verdict(committee, votes_valid),
    {
        // Genesis certificates are always valid.
        if self.is_genesis(committee) {
            return Ok(());
        }
        // The embedded header must be valid.
        match self.header.verify(committee) {
            Err(e) => return Err(e),
            Ok(()) => {},
        }
        // The votes must make a quorum.
        match self.weigh_votes(committee) {
            Err(e) => return Err(e),
            Ok(weight) => {
                if weight < committee.quorum_threshold() as Weight {
                    return Err(DagError::CertificateRequiresQuorum);
                }
            },
        }
        if !votes_valid {
            return Err(DagError::InvalidSignature);
        }
        Ok(())
    }

    /// The stake behind the votes, each of which must come from another authority with stake.
    fn weigh_votes(&self, committee: &Committee) -> (r: Result<Weight, DagError>)
        ensures
            match r {
                Err(e) => votes_weight(self.votes@, committee) == Err::<nat, DagError>(e),
                Ok(weight) => votes_weight(self.votes@, committee) == Ok::<nat, DagError>(
                    weight as nat,
                ),
            },
    {
        let mut weight: Weight = 0;
        let mut used: KeySet<PublicKey> = KeySet::new();
        let mut i: usize = 0;
        assert(voters(self.votes@.take(0)) =~= Set::empty());
        while i < self.votes.len()
            invariant
                i <= self.votes@.len(),
                used@ == voters(self.votes@.take(i as int)),
                votes_weight(self.votes@.take(i as int), committee) == Ok::<nat, DagError>(
                    weight as nat,
                ),
                weight <= i * u32::MAX,
            decreases self.votes@.len() - i,
        {
            let name: PublicKey = self.votes[i].0;
            let ghost before = self.votes@.take(i as int);
            let ghost after = self.votes@.take(i + 1);
            proof {
                assert(after.drop_last() =~= before);
                assert(after.last().0 == name);
            }
            if used.contains(&name) {
                proof {
                    lemma_votes_prefix(self.votes@, committee, i + 1);
                }
                return Err(DagError::AuthorityReuse(name));
            }
            let stake: u32 = committee.stake(&name);
            if stake == 0 {
                proof {
                    lemma_votes_prefix(self.votes@, committee, i + 1);
                }
                return Err(DagError::UnknownAuthority(name));
            }
            let _ = used.insert(name);
            proof {
                lemma_voters_push(before, self.votes@[i as int]);
                assert(after =~= before.push(self.votes@[i as int]));
                assert((i + 1) * u32::MAX == i * u32::MAX + u32::MAX) by (nonlinear_arith);
                assert(i * u32::MAX <= usize::MAX * u32::MAX) by (nonlinear_arith)
                    requires
                        i <= usize::MAX,
                ;
                assert(usize::MAX * u32::MAX + u32::MAX <= u128::MAX) by (nonlinear_arith)
                    requires
                        usize::MAX <= u64::MAX,
                ;
            }
            weight = weight + stake as Weight;
            i = i + 1;
        }
        assert(self.votes@.take(i as int) =~= self.votes@);
        Ok(weight)
    }

    /// Checks the certificate against the rules and the signatures of its votes, which are checked
    /// as a batch. The verdict of that check is the only part that rests on chance.
    pub fn verify(&self, committee: &Committee) -> (r: Result<(), DagError>)
        ensures
            exists|draw: Seq<u8>|
                r == self@.verdict(
                    committee,
                    #[trigger] votes_accepted(self@.digest(), self.votes@, draw),
                ),
            self.votes@.len() == 0 ==> r == self@.verdict(committee, true),
    {
        let ghost accepted = votes_accepted(self@.digest(), self.votes@, seq![]);
        if self.is_genesis(committee) {
            assert(self@.verdict(committee, accepted) is Ok);
            return Ok(());
        }
        match self.verify_with(committee, true) {
            Err(e) => {
                assert(self@.verdict(committee, accepted) == Err::<(), DagError>(e));
                Err(e)
            },
            Ok(()) => {
                if Signature::verify_batch(&self.digest(), &self.votes) {
                    Ok(())
                } else {
                    Err(DagError::InvalidSignature)
                }
            },
        }
    }

    pub fn round(&self) -> (r: Round)
        ensures
            r == self@.round(),
    {
        self.header.round
    }

    pub fn origin(&self) -> (r: PublicKey)
        ensures
            r == self@.origin(),
    {
        self.header.author
    }

    /// The name of the certificate, which each of its votes signs.
    pub fn digest(&self) -> (r: Digest)
        ensures
            r == self@.digest(),
    {
        endorsement_digest(&self.header.id, self.header.round, &self.header.author)
    }
}

impl Default for Certificate {
    fn default() -> (r: Self)
        ensures
            r@ == CertificateView::genesis(zero_key()),
    {
        let r = Certificate { header: Header::default(), votes: Vec::new() };
        assert(r@ =~= CertificateView::genesis(zero_key()));
        r
    }
}

impl Clone for Certificate {
    fn clone(&self) -> (r: Self)
        ensures
            r@ == self@,
    {
        let votes: Vec<(PublicKey, Signature)> = copy_votes(&self.votes);
        Certificate { header: self.header.clone(), votes }
    }
}

/// A copy of a list of votes.
pub(crate) fn copy_votes(votes: &Vec<(PublicKey, Signature)>) -> (r: Vec<(PublicKey, Signature)>)
    ensures
        r@ == votes@,
{
    let mut r: Vec<(PublicKey, Signature)> = Vec::new();
    let mut i: usize = 0;
    while i < votes.len()
        invariant
            i <= votes@.len(),
            r@ == votes@.take(i as int),
        decreases votes@.len() - i,
    {
        r.push(votes[i]);
        i = i + 1;
        assert(r@ =~= votes@.take(i as int));
    }
    assert(r@ =~= votes@);
    r
}

/// A copy of a list of digests.
pub(crate) fn copy_digests(list: &Vec<Digest>) -> (r: Vec<Digest>)
    ensures
        r@ == list@,
{
    let mut r: Vec<Digest> = Vec::new();
    let mut i: usize = 0;
    while i < list.len()
        invariant
            i <= list@.len(),
            r@ == list@.take(i as int),
        decreases list@.len() - i,
    {
        r.push(list[i]);
        i = i + 1;
        assert(r@ =~= list@.take(i as int));
    }
    assert(r@ =~= list@);
    r
}

/// Two certificates are equal where they name the same header of the same author and round.
impl PartialEq for Certificate {
    fn eq(&self, other: &Self) -> (r: bool) {
        self.header.id.same(&other.header.id) && self.header.round == other.header.round
            && self.header.author.same(&other.header.author)
    }
}

impl vstd::std_specs::cmp::PartialEqSpecImpl for Certificate {
    open spec fn obeys_eq_spec() -> bool {
        true
    }

    open spec fn eq_spec(&self, other: &Self) -> bool {
        self@.names_same(other@)
    }
}

/// A vote added to a list adds its author to the voters.
pub(crate) proof fn lemma_voters_push(
    votes: Seq<(PublicKey, Signature)>,
    vote: (PublicKey, Signature),
)
    ensures
        voters(votes.push(vote)) == voters(votes).insert(vote.0),
{
    let f = |v: (PublicKey, Signature)| v.0;
    assert(votes.push(vote).map_values(f) =~= votes.map_values(f).push(vote.0));
    votes.map_values(f).lemma_push_to_set_commute(vote.0);
}

/// What breaks the rules in a prefix of the votes breaks them in the whole list.
proof fn lemma_votes_prefix(votes: Seq<(PublicKey, Signature)>, committee: &Committee, n: int)
    requires
        0 <= n <= votes.len(),
        votes_weight(votes.take(n), committee) is Err,
    ensures
        votes_weight(votes, committee) == votes_weight(votes.take(n), committee),
    decreases votes.len(),
{
    if n == votes.len() {
        assert(votes.take(n) =~= votes);
    } else {
        assert(votes.drop_last().take(n) =~= votes.take(n));
        lemma_votes_prefix(votes.drop_last(), committee, n);
    }
}

/// A vote for the header of a certificate signs the digest of the certificate.
pub proof fn lemma_votes_sign_certificate(vote: Vote, c: CertificateView)
    requires
        vote.id == c.header.id,
        vote.round == c.round(),
        vote.origin == c.origin(),
    ensures
        vote.spec_digest() == c.digest(),
{
}

/// The id of a header covers its author, its round, its payload and its parents, and nothing else.
pub proof fn lemma_id_covers(a: HeaderView, b: HeaderView)
    requires
        a.author == b.author,
        a.round == b.round,
        a.payload == b.payload,
        a.parents == b.parents,
    ensures
        a.digest() == b.digest(),
{
}

/// A genesis certificate of a member keeps the rules.
pub proof fn lemma_genesis_verifies(name: PublicKey, committee: &Committee, votes_valid: bool)
    requires
        committee.members().contains(name),
    ensures
        CertificateView::genesis(name).verdict(committee, votes_valid) is Ok,
{
}

} // verus!
