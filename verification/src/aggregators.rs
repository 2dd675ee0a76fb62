//! Collecting votes into a certificate, and certificates into the parents of a proposal.
use vstd::arithmetic::div_mod::lemma_mod_decreases;
use vstd::prelude::*;

use crate::collections::{KeyMap, KeySet};
use crate::committee::{Committee, Round, RoundRule, Weight};
use crate::crypto::{Digest, PublicKey, Signature};
use crate::error::DagError;
use crate::keys::{lemma_ordered_finite, lemma_remove_sorted, lemma_sorted_unique, ordered};
use crate::messages::{
    copy_digests, copy_votes, lemma_voters_push, voters, votes_weight, Certificate, CertificateView, Header,
    HeaderView, ProposalParents, ProposalParentsView, StepVertexSource, Vote,
};

verus! {

/// Collects the votes for one header until they make a certificate.
pub struct VotesAggregator {
    /// The stake of the votes since the quorum was last reached.
    weight: Weight,
    votes: Vec<(PublicKey, Signature)>,
    used: KeySet<PublicKey>,
}

/// What a collection of votes holds.
#[verifier::ext_equal]
pub struct VotesView {
    pub weight: nat,
    pub votes: Seq<(PublicKey, Signature)>,
    pub used: Set<PublicKey>,
}

impl View for VotesAggregator {
    type V = VotesView;

    closed spec fn view(&self) -> VotesView {
        VotesView { weight: self.weight as nat, votes: self.votes@, used: self.used@ }
    }
}

impl VotesView {
    /// No votes.
    pub open spec fn empty() -> VotesView {
        VotesView { weight: 0, votes: seq![], used: Set::empty() }
    }

    /// The authorities that have voted are the authors of the votes.
    pub open spec fn well_formed(self) -> bool {
        self.used == voters(self.votes)
    }

    /// The collection with one more vote.
    pub open spec fn counted(self, vote: Vote, committee: &Committee) -> VotesView {
        VotesView {
            weight: self.weight + committee.stake_of(vote.author) as nat,
            votes: self.votes.push((vote.author, vote.signature)),
            used: self.used.insert(vote.author),
        }
    }

    /// What becomes of a vote: an authority votes once, and the vote that completes a quorum makes
    /// the certificate, after which the count starts again from nothing.
    pub open spec fn appended(self, vote: Vote, committee: &Committee, header: HeaderView) -> (
        VotesView,
        Result<Option<CertificateView>, DagError>,
    ) {
        if self.used.contains(vote.author) {
            (self, Err(DagError::AuthorityReuse(vote.author)))
        } else {
            let counted = self.counted(vote, committee);
            if counted.weight >= committee.quorum_threshold {
                (
                    VotesView { weight: 0, ..counted },
                    Ok(Some(CertificateView { header, votes: counted.votes })),
                )
            } else {
                (counted, Ok(None))
            }
        }
    }

    /// The collection after a list of votes, and the certificates that they make.
    pub open spec fn appended_all(
        self,
        votes: Seq<Vote>,
        committee: &Committee,
        header: HeaderView,
    ) -> (VotesView, Seq<CertificateView>)
        decreases votes.len(),
    {
        if votes.len() == 0 {
            (self, seq![])
        } else {
            let (before, made) = self.appended_all(votes.drop_last(), committee, header);
            let (after, result) = before.appended(votes.last(), committee, header);
            match result {
                Ok(Some(certificate)) => (after, made.push(certificate)),
                _ => (after, made),
            }
        }
    }
}

impl VotesAggregator {
    /// The authors of the votes are known, and the stake of the votes fits in the weight.
    #[verifier::type_invariant]
    spec fn is_counted(self) -> bool {
        self@.well_formed() && self.weight <= self.votes@.len() * u32::MAX
    }

    pub fn new() -> (r: Self)
        ensures
            r@ == VotesView::empty(),
    {
        let votes: Vec<(PublicKey, Signature)> = Vec::new();
        assert(voters(votes@) =~= Set::empty());
        VotesAggregator { weight: 0, votes, used: KeySet::new() }
    }

    /// Counts a vote for `header`.
    pub fn append(&mut self, vote: Vote, committee: &Committee, header: &Header) -> (r: Result<
        Option<Certificate>,
        DagError,
    >)
        ensures
            ({
                let (after, result) = old(self)@.appended(vote, committee, header@);
                &&& final(self)@ == after
                &&& match r {
                    Ok(Some(certificate)) => result == Ok::<Option<CertificateView>, DagError>(
                        Some(certificate@),
                    ),
                    Ok(None) => result == Ok::<Option<CertificateView>, DagError>(None),
                    Err(e) => result == Err::<Option<CertificateView>, DagError>(e),
                }
            }),
    {
        proof {
            use_type_invariant(&*self);
        }
        let ghost before = self@;
        let author: PublicKey = vote.author;
        if self.used.contains(&author) {
            return Err(DagError::AuthorityReuse(author));
        }
        let mut taken: VotesAggregator = VotesAggregator::new();
        std::mem::swap(&mut taken, self);
        let VotesAggregator { weight, votes, used } = taken;
        let mut votes: Vec<(PublicKey, Signature)> = votes;
        let mut used: KeySet<PublicKey> = used;
        let _ = used.insert(author);
        let count: usize = votes.len();
        proof {
            lemma_voters_push(votes@, (author, vote.signature));
            lemma_stake_fits(count as nat);
        }
        let total: Weight = weight + committee.stake(&author) as Weight;
        votes.push((author, vote.signature));
        if total >= committee.quorum_threshold() as Weight {
            let certificate = Certificate { header: header.clone(), votes: copy_votes(&votes) };
            *self = VotesAggregator { weight: 0, votes, used };
            Ok(Some(certificate))
        } else {
            *self = VotesAggregator { weight: total, votes, used };
            Ok(None)
        }
    }
}

/// The stake of votes that fit in memory fits in a weight.
pub(crate) proof fn lemma_stake_fits(n: nat)
    requires
        n <= usize::MAX,
    ensures
        (n + 1) * u32::MAX == n * u32::MAX + u32::MAX,
        (n + 1) * u32::MAX <= Weight::MAX,
{
    assert((n + 1) * u32::MAX == n * u32::MAX + u32::MAX) by (nonlinear_arith);
    assert(n * u32::MAX <= usize::MAX * u32::MAX) by (nonlinear_arith)
        requires
            n <= usize::MAX,
    ;
    assert(usize::MAX * u32::MAX + u32::MAX <= u128::MAX) by (nonlinear_arith)
        requires
            usize::MAX <= u64::MAX,
    ;
}

/// Collects the certificates of one round, and the earlier ones of its step and wave, until they
/// can be the parents of a header of the next round.
pub struct CertificatesAggregator {
    expected_round: Round,
    /// The stake of the certificates of the expected round.
    weight: Weight,
    certificates: Vec<Digest>,
    weak_certificates: Vec<Digest>,
    used: KeySet<PublicKey>,
    has_quorum: bool,
    /// The solid-step vertices of the parents.
    solid_step_union: KeySet<Digest>,
    /// How each solid-step vertex arrived.
    solid_step_sources: KeyMap<Digest, StepVertexSource>,
    /// The solid-wave vertices of the parents.
    solid_wave_union: KeySet<Digest>,
    /// The solid-step vertices when a solid step was last looked at.
    last_union_set: Option<Vec<Digest>>,
}

/// What a collection of certificates holds.
#[verifier::ext_equal]
pub struct CertificatesView {
    pub expected_round: Round,
    pub weight: nat,
    pub certificates: Seq<Digest>,
    pub weak_certificates: Seq<Digest>,
    pub used: Set<PublicKey>,
    pub has_quorum: bool,
    pub solid_step_union: Set<Digest>,
    pub solid_step_sources: Map<Digest, StepVertexSource>,
    pub solid_wave_union: Set<Digest>,
    pub last_union_set: Option<Seq<Digest>>,
}

/// How a certificate can serve as a parent of a header of the round after the expected one.
#[derive(Clone, Copy, Debug, PartialEq, Eq, Structural)]
pub enum EdgeKind {
    /// It is of the expected round.
    Strong,
    /// It is earlier, but of the same step.
    StepWeak,
    /// It is of an earlier step, but of the same wave.
    WaveWeak,
    /// It cannot serve.
    Outside,
}

/// The first round of the stretch of `length` rounds that `round` belongs to.
pub open spec fn stretch_start(round: Round, length: Round) -> int {
    round - (round as int) % (length as int)
}

/// How a certificate of `round` can serve beside those of `expected`.
pub open spec fn edge_kind(
    expected: Round,
    round: Round,
    step_length: Round,
    wave_length: Round,
) -> EdgeKind {
    if round == expected {
        EdgeKind::Strong
    } else if stretch_start(expected, step_length) <= round < expected {
        EdgeKind::StepWeak
    } else if stretch_start(expected, wave_length) <= round < stretch_start(expected, step_length) {
        EdgeKind::WaveWeak
    } else {
        EdgeKind::Outside
    }
}

/// The ways of two sources together.
pub open spec fn merged_source(a: StepVertexSource, b: StepVertexSource) -> StepVertexSource {
    StepVertexSource {
        direct_weak: a.direct_weak || b.direct_weak,
        relay_merged: a.relay_merged || b.relay_merged,
    }
}

/// The solid-step vertices that a header hands on.
pub open spec fn step_vertices(header: HeaderView) -> Set<Digest> {
    if header.solid_step_vertices_merged =~= Set::empty() {
        header.solid_step_vertices
    } else {
        header.solid_step_vertices_merged
    }
}

/// The solid-wave vertices that a header hands on.
pub open spec fn wave_vertices(header: HeaderView) -> Set<Digest> {
    if header.solid_wave_vertices_merged =~= Set::empty() {
        header.solid_wave_vertices
    } else {
        header.solid_wave_vertices_merged
    }
}

/// What is known of how vertices arrived, with some more vertices that came one way.
pub open spec fn sources_with(
    sources: Map<Digest, StepVertexSource>,
    vertices: Set<Digest>,
    source: StepVertexSource,
) -> Map<Digest, StepVertexSource> {
    Map::new(
        |d: Digest| sources.contains_key(d) || vertices.contains(d),
        |d: Digest|
            if !vertices.contains(d) {
                sources[d]
            } else if sources.contains_key(d) {
                merged_source(sources[d], source)
            } else {
                source
            },
    )
}

impl View for CertificatesAggregator {
    type V = CertificatesView;

    closed spec fn view(&self) -> CertificatesView {
        CertificatesView {
            expected_round: self.expected_round,
            weight: self.weight as nat,
            certificates: self.certificates@,
            weak_certificates: self.weak_certificates@,
            used: self.used@,
            has_quorum: self.has_quorum,
            solid_step_union: self.solid_step_union@,
            solid_step_sources: self.solid_step_sources@,
            solid_wave_union: self.solid_wave_union@,
            last_union_set: match self.last_union_set {
                Some(list) => Some(list@),
                None => None,
            },
        }
    }
}

impl CertificatesView {
    /// No certificates for the round after `expected_round`.
    pub open spec fn empty(expected_round: Round) -> CertificatesView {
        CertificatesView {
            expected_round,
            weight: 0,
            certificates: seq![],
            weak_certificates: seq![],
            used: Set::empty(),
            has_quorum: false,
            solid_step_union: Set::empty(),
            solid_step_sources: Map::empty(),
            solid_wave_union: Set::empty(),
            last_union_set: None,
        }
    }

    /// The weight is the stake of some of the certificates.
    pub open spec fn well_formed(self) -> bool {
        self.weight <= self.certificates.len() * u32::MAX
    }

    /// An authority that has given a certificate of the expected round gives another.
    pub open spec fn repeats(self, c: CertificateView) -> bool {
        c.round() == self.expected_round && self.used.contains(c.origin())
    }

    /// The collection with the solid-step vertices of a certificate.
    pub open spec fn with_step(self, c: CertificateView, source: StepVertexSource) -> CertificatesView {
        let vertices = step_vertices(c.header);
        CertificatesView {
            solid_step_union: self.solid_step_union.union(vertices),
            solid_step_sources: sources_with(self.solid_step_sources, vertices, source),
            ..self
        }
    }

    /// The collection with the solid-wave vertices of a certificate.
    pub open spec fn with_wave(self, c: CertificateView) -> CertificatesView {
        CertificatesView {
            solid_wave_union: self.solid_wave_union.union(wave_vertices(c.header)),
            ..self
        }
    }

    /// The collection with one more parent.
    pub open spec fn with_parent(self, c: CertificateView, committee: &Committee) -> CertificatesView {
        let kind = edge_kind(
            self.expected_round,
            c.round(),
            committee.solid_step_length,
            committee.solid_wave_length,
        );
        let listed = CertificatesView {
            certificates: self.certificates.push(c.digest()),
            weak_certificates: if kind == EdgeKind::Strong {
                self.weak_certificates
            } else {
                self.weak_certificates.push(c.digest())
            },
            ..self
        };
        match kind {
            EdgeKind::Strong => CertificatesView {
                weight: self.weight + committee.stake_of(c.origin()) as nat,
                used: self.used.insert(c.origin()),
                ..listed.with_step(
                    c,
                    StepVertexSource { direct_weak: false, relay_merged: true },
                ).with_wave(c)
            },
            EdgeKind::StepWeak => listed.with_step(
                c,
                StepVertexSource { direct_weak: true, relay_merged: false },
            ).with_wave(c),
            EdgeKind::WaveWeak => listed.with_wave(c),
            EdgeKind::Outside => self,
        }
    }

    /// Whether the parents suffice for the next round: at the end of a solid step the merged vertices
    /// count, and otherwise the stake.
    pub open spec fn suffices(self, rule: RoundRule) -> bool {
        if rule.is_solid_step {
            self.solid_step_union.len() >= rule.processing_threshold
        } else {
            self.weight >= rule.processing_threshold
        }
    }

    /// The collection after it has been looked at under the rule of the next round.
    pub open spec fn checked(self, rule: RoundRule) -> CertificatesView {
        CertificatesView {
            has_quorum: self.suffices(rule),
            last_union_set: if rule.is_solid_step {
                Some(ordered(self.solid_step_union))
            } else {
                self.last_union_set
            },
            ..self
        }
    }

    /// What is handed to the proposer.
    pub open spec fn snapshot(self) -> ProposalParentsView {
        ProposalParentsView {
            parents: self.certificates,
            solid_step_union: self.solid_step_union,
            solid_step_sources: self.solid_step_sources,
            solid_wave_union: self.solid_wave_union,
        }
    }

    /// What becomes of a certificate: a second one of an authority, or one that cannot serve, changes
    /// nothing; any other is added, and where the parents then suffice they are handed on.
    pub open spec fn appended(self, c: CertificateView, committee: &Committee, rule: RoundRule) -> (
        CertificatesView,
        Option<ProposalParentsView>,
    ) {
        let kind = edge_kind(
            self.expected_round,
            c.round(),
            committee.solid_step_length,
            committee.solid_wave_length,
        );
        if self.repeats(c) || kind == EdgeKind::Outside {
            (self, None)
        } else {
            let after = self.with_parent(c, committee).checked(rule);
            (
                after,
                if after.has_quorum {
                    Some(after.snapshot())
                } else {
                    None
                },
            )
        }
    }
}

/// How a certificate of `round` can serve beside those of `expected`.
fn classify_edge(expected: Round, round: Round, step_length: Round, wave_length: Round) -> (r:
    EdgeKind)
    requires
        step_length > 0,
        wave_length > 0,
    ensures
        r == edge_kind(expected, round, step_length, wave_length),
{
    proof {
        lemma_mod_decreases(expected as nat, step_length as nat);
        lemma_mod_decreases(expected as nat, wave_length as nat);
    }
    let regular_weak_start: Round = expected - expected % step_length;
    let commit_weak_start: Round = expected - expected % wave_length;
    if round == expected {
        EdgeKind::Strong
    } else if round >= regular_weak_start && round < expected {
        EdgeKind::StepWeak
    } else if round >= commit_weak_start && round < regular_weak_start {
        EdgeKind::WaveWeak
    } else {
        EdgeKind::Outside
    }
}

impl CertificatesAggregator {
    pub fn new(expected_round: Round) -> (r: Self)
        ensures
            r@ == CertificatesView::empty(expected_round),
            r@.well_formed(),
    {
        let r = CertificatesAggregator {
            expected_round,
            weight: 0,
            certificates: Vec::new(),
            weak_certificates: Vec::new(),
            used: KeySet::new(),
            has_quorum: false,
            solid_step_union: KeySet::new(),
            solid_step_sources: KeyMap::new(),
            solid_wave_union: KeySet::new(),
            last_union_set: None,
        };
        assert(r@ =~= CertificatesView::empty(expected_round));
        r
    }

    /// The solid-step vertices when a solid step was last looked at, in increasing order.
    pub fn last_solid_step_union_digests(&self) -> (r: Option<&Vec<Digest>>)
        ensures
            match r {
                Some(list) => self@.last_union_set == Some(list@),
                None => self@.last_union_set is None,
            },
    {
        match &self.last_union_set {
            Some(list) => Some(list),
            None => None,
        }
    }

    /// Adds the solid-step vertices that a certificate hands on.
    fn extend_step_union(&mut self, certificate: &Certificate, source: StepVertexSource)
        ensures
            final(self)@ == old(self)@.with_step(certificate@, source),
    {
        let ghost before = self@;
        let ghost vertices = step_vertices(certificate@.header);
        let merged: bool = !certificate.header.solid_step_vertices_merged.is_empty();
        let list: Vec<Digest> = if merged {
            certificate.header.solid_step_vertices_merged.to_vec()
        } else {
            certificate.header.solid_step_vertices.to_vec()
        };
        assert(list@.to_set() == vertices);
        let mut i: usize = 0;
        proof {
            assert(before.solid_step_union.union(list@.take(0).to_set())
                =~= before.solid_step_union);
            assert(sources_with(before.solid_step_sources, list@.take(0).to_set(), source)
                =~= before.solid_step_sources);
        }
        while i < list.len()
            invariant
                i <= list@.len(),
                list@.no_duplicates(),
                self@ == (CertificatesView {
                    solid_step_union: before.solid_step_union.union(
                        list@.take(i as int).to_set(),
                    ),
                    solid_step_sources: sources_with(
                        before.solid_step_sources,
                        list@.take(i as int).to_set(),
                        source,
                    ),
                    ..before
                }),
            decreases list@.len() - i,
        {
            let digest: Digest = list[i];
            let ghost taken = list@.take(i as int);
            let ghost held = self@;
            let mut merged: StepVertexSource = match self.solid_step_sources.get(&digest) {
                Some(known) => *known,
                None => StepVertexSource::default(),
            };
            merged.merge(source);
            let _ = self.solid_step_union.insert(digest);
            let _ = self.solid_step_sources.insert(digest, merged);
            proof {
                assert(list@.take(i + 1) =~= taken.push(digest));
                taken.lemma_push_to_set_commute(digest);
                assert(!taken.to_set().contains(digest)) by {
                    if taken.contains(digest) {
                        let j = choose|j: int| 0 <= j < taken.len() && taken[j] == digest;
                        assert(list@[j] == list@[i as int]);
                    }
                }
                assert(held.solid_step_union.insert(digest) =~= before.solid_step_union.union(
                    list@.take(i + 1).to_set(),
                ));
                assert(held.solid_step_sources.insert(digest, merged) =~= sources_with(
                    before.solid_step_sources,
                    list@.take(i + 1).to_set(),
                    source,
                ));
            }
            i = i + 1;
        }
        assert(list@.take(i as int) =~= list@);
    }

    /// Adds the solid-wave vertices that a certificate hands on.
    fn extend_wave_union(&mut self, certificate: &Certificate)
        ensures
            final(self)@ == old(self)@.with_wave(certificate@),
    {
        if certificate.header.solid_wave_vertices_merged.is_empty() {
            self.solid_wave_union.extend(&certificate.header.solid_wave_vertices);
        } else {
            self.solid_wave_union.extend(&certificate.header.solid_wave_vertices_merged);
        }
        assert(self@ =~= old(self)@.with_wave(certificate@));
    }

    /// Counts a certificate towards the parents of a header of the next round, of which `rule` says
    /// what its parents must bring.
    pub fn append(&mut self, certificate: Certificate, committee: &Committee, rule: RoundRule) -> (r:
        Result<Option<ProposalParents>, DagError>)
        requires
            old(self)@.well_formed(),
            !old(self)@.repeats(certificate@) ==> committee.solid_step_length > 0
                && committee.solid_wave_length > 0 && old(self)@.expected_round < Round::MAX,
        ensures
            ({
                let (after, result) = old(self)@.appended(certificate@, committee, rule);
                &&& final(self)@ == after
                &&& match r {
                    Ok(Some(parents)) => result == Some(parents@),
                    Ok(None) => result is None,
                    Err(_) => false,
                }
            }),
            final(self)@.well_formed(),
    {
        let ghost before = self@;
        let ghost c = certificate@;
        let origin: PublicKey = certificate.origin();
        let round: Round = certificate.round();
        if round == self.expected_round && self.used.contains(&origin) {
            return Ok(None);
        }
        let kind: EdgeKind = classify_edge(
            self.expected_round,
            round,
            committee.solid_step_length(),
            committee.solid_wave_length(),
        );
        if kind == EdgeKind::Outside {
            return Ok(None);
        }
        let digest: Digest = certificate.digest();
        let count: usize = self.certificates.len();
        proof {
            lemma_stake_fits(count as nat);
        }
        self.certificates.push(digest);
        if kind == EdgeKind::Strong {
            let _ = self.used.insert(origin);
            self.weight = self.weight + committee.stake(&origin) as Weight;
            self.extend_step_union(&certificate, StepVertexSource::relay_merged());
        } else {
            self.weak_certificates.push(digest);
            if kind == EdgeKind::StepWeak {
                self.extend_step_union(&certificate, StepVertexSource::direct_weak());
            }
        }
        self.extend_wave_union(&certificate);
        assert(self@ =~= before.with_parent(c, committee));
        let ghost held = self@;
        if rule.is_solid_step {
            self.last_union_set = Some(self.solid_step_union.to_vec());
            self.has_quorum = self.solid_step_union.len() as u64 >= rule.processing_threshold as u64;
        } else {
            self.has_quorum = self.weight >= rule.processing_threshold as Weight;
        }
        assert(self@ =~= held.checked(rule));
        if self.has_quorum {
            let parents: Vec<Digest> = copy_digests(&self.certificates);
            let mut snapshot: ProposalParents = ProposalParents::from(parents);
            snapshot.solid_step_union = self.solid_step_union.clone();
            snapshot.solid_step_sources = self.solid_step_sources.clone();
            snapshot.solid_wave_union = self.solid_wave_union.clone();
            assert(snapshot@ =~= self@.snapshot());
            return Ok(Some(snapshot));
        }
        Ok(None)
    }
}

/// The weight of the votes on a list.
pub open spec fn list_weight(votes: Seq<(PublicKey, Signature)>, committee: &Committee) -> nat
    decreases votes.len(),
{
    if votes.len() == 0 {
        0
    } else {
        list_weight(votes.drop_last(), committee) + committee.stake_of(votes.last().0) as nat
    }
}

/// No author of a list of votes comes twice.
pub open spec fn distinct_voters(votes: Seq<(PublicKey, Signature)>) -> bool {
    forall|i: int, j: int|
        0 <= i < j < votes.len() ==> (#[trigger] votes[i]).0 != (#[trigger] votes[j]).0
}

/// A vote of a new author keeps the authors distinct.
proof fn lemma_distinct_push(votes: Seq<(PublicKey, Signature)>, vote: (PublicKey, Signature))
    requires
        distinct_voters(votes),
        !voters(votes).contains(vote.0),
    ensures
        distinct_voters(votes.push(vote)),
{
    let names = votes.map_values(|v: (PublicKey, Signature)| v.0);
    let all = votes.push(vote);
    assert forall|i: int, j: int| 0 <= i < j < all.len() implies (#[trigger] all[i]).0 != (
    #[trigger] all[j]).0 by {
        if j == votes.len() {
            assert(names[i] == all[i].0);
            assert(names.contains(names[i]));
            assert(names.to_set().contains(names[i]));
        }
    }
}

/// Distinct voters have no more stake than a list of names that holds those of them with stake.
proof fn lemma_voters_within(
    votes: Seq<(PublicKey, Signature)>,
    names: Seq<PublicKey>,
    committee: &Committee,
)
    requires
        distinct_voters(votes),
        forall|i: int|
            0 <= i < votes.len() && committee.stake_of((#[trigger] votes[i]).0) > 0
                ==> names.contains(votes[i].0),
    ensures
        list_weight(votes, committee) <= committee.weight(names),
    decreases votes.len(),
{
    if votes.len() > 0 {
        let rest = votes.drop_last();
        let name = votes.last().0;
        assert(votes[votes.len() - 1].0 == name);
        assert(distinct_voters(rest)) by {
            assert forall|i: int, j: int| 0 <= i < j < rest.len() implies (#[trigger] rest[i]).0
                != (#[trigger] rest[j]).0 by {
                assert(rest[i] == votes[i] && rest[j] == votes[j]);
            }
        }
        if committee.stake_of(name) == 0 {
            assert forall|i: int|
                0 <= i < rest.len() && committee.stake_of((#[trigger] rest[i]).0)
                    > 0 implies names.contains(rest[i].0) by {
                assert(rest[i] == votes[i]);
            }
            lemma_voters_within(rest, names, committee);
        } else {
            let k = choose|k: int| 0 <= k < names.len() && names[k] == name;
            let others = names.remove(k);
            assert forall|i: int|
                0 <= i < rest.len() && committee.stake_of((#[trigger] rest[i]).0)
                    > 0 implies others.contains(rest[i].0) by {
                assert(rest[i] == votes[i]);
                assert(votes[i].0 != votes[votes.len() - 1].0);
                let j = choose|j: int| 0 <= j < names.len() && names[j] == votes[i].0;
                if j < k {
                    assert(others[j] == names[j]);
                } else {
                    assert(others[j - 1] == names[j]);
                }
            }
            lemma_voters_within(rest, others, committee);
            lemma_weight_remove(committee, names, k);
        }
    }
}

/// Taking a name out of a list takes its stake out of the weight.
proof fn lemma_weight_remove(committee: &Committee, names: Seq<PublicKey>, k: int)
    requires
        0 <= k < names.len(),
    ensures
        committee.weight(names) == committee.weight(names.remove(k)) + committee.stake_of(names[k]),
    decreases names.len(),
{
    if k == names.len() - 1 {
        assert(names.remove(k) =~= names.drop_last());
    } else {
        let rest = names.drop_last();
        lemma_weight_remove(committee, rest, k);
        assert(names.remove(k).drop_last() =~= rest.remove(k));
        assert(names.remove(k).last() == names.last());
    }
}

/// The collection of votes after a list of votes: its voters are distinct, and the stake of all its
/// votes is the stake counted since the last certificate and a quorum for each certificate.
proof fn lemma_votes_run(votes: Seq<Vote>, committee: &Committee, header: HeaderView)
    ensures
        ({
            let (after, made) = VotesView::empty().appended_all(votes, committee, header);
            &&& after.well_formed()
            &&& distinct_voters(after.votes)
            &&& list_weight(after.votes, committee) >= after.weight + made.len()
                * committee.quorum_threshold
            &&& made.len() == 0 ==> list_weight(after.votes, committee) == after.weight
            &&& forall|i: int|
                0 <= i < made.len() ==> (#[trigger] made[i]).header == header && distinct_voters(
                    made[i].votes,
                ) && list_weight(made[i].votes, committee) >= committee.quorum_threshold
        }),
    decreases votes.len(),
{
    let empty = VotesView::empty();
    if votes.len() == 0 {
        assert(voters(empty.votes) =~= Set::empty());
    } else {
        lemma_votes_run(votes.drop_last(), committee, header);
        let (before, made) = empty.appended_all(votes.drop_last(), committee, header);
        let vote = votes.last();
        if !before.used.contains(vote.author) {
            let pair = (vote.author, vote.signature);
            let counted = before.counted(vote, committee);
            lemma_voters_push(before.votes, pair);
            lemma_distinct_push(before.votes, pair);
            assert(counted.votes.drop_last() =~= before.votes);
            assert((made.len() + 1) * committee.quorum_threshold == made.len()
                * committee.quorum_threshold + committee.quorum_threshold) by (nonlinear_arith);
            assert(made.len() * committee.quorum_threshold >= 0) by (nonlinear_arith);
        }
    }
}

/// A quorum is reached only once: where two quorums exceed the stake of the whole committee, the
/// votes for a header make at most one certificate, however many votes arrive.
pub proof fn lemma_quorum_once(votes: Seq<Vote>, committee: &Committee, header: HeaderView)
    requires
        committee.members().finite(),
        2 * committee.quorum_threshold > committee.weight(ordered(committee.members())),
    ensures
        VotesView::empty().appended_all(votes, committee, header).1.len() <= 1,
{
    let names = ordered(committee.members());
    let (after, made) = VotesView::empty().appended_all(votes, committee, header);
    lemma_votes_run(votes, committee, header);
    lemma_ordered_finite(committee.members());
    assert forall|i: int|
        0 <= i < after.votes.len() && committee.stake_of((#[trigger] after.votes[i]).0)
            > 0 implies names.contains(after.votes[i].0) by {
        assert(committee.members().contains(after.votes[i].0));
    }
    lemma_voters_within(after.votes, names, committee);
    if made.len() >= 2 {
        assert(made.len() * committee.quorum_threshold >= 2 * committee.quorum_threshold)
            by (nonlinear_arith)
            requires
                made.len() >= 2,
        ;
    }
}

/// Votes of distinct voters with stake add up.
proof fn lemma_votes_add_up(votes: Seq<(PublicKey, Signature)>, committee: &Committee)
    requires
        distinct_voters(votes),
        all_staked(votes, committee),
    ensures
        votes_weight(votes, committee) == Ok::<nat, DagError>(list_weight(votes, committee)),
    decreases votes.len(),
{
    if votes.len() > 0 {
        let rest = votes.drop_last();
        let name = votes.last().0;
        assert(votes[votes.len() - 1].0 == name);
        assert forall|i: int| 0 <= i < rest.len() implies committee.stake_of((#[trigger] rest[i]).0)
            > 0 by {
            assert(rest[i] == votes[i]);
        }
        assert(distinct_voters(rest)) by {
            assert forall|i: int, j: int| 0 <= i < j < rest.len() implies (#[trigger] rest[i]).0
                != (#[trigger] rest[j]).0 by {
                assert(rest[i] == votes[i] && rest[j] == votes[j]);
            }
        }
        lemma_votes_add_up(rest, committee);
        if voters(rest).contains(name) {
            let names = rest.map_values(|v: (PublicKey, Signature)| v.0);
            let i = choose|i: int| 0 <= i < names.len() && names[i] == name;
            assert(votes[i].0 == name);
        }
    }
}

/// A certificate that is made from votes of authorities with stake keeps the rules, if its header does
/// and the signatures are valid.
pub proof fn lemma_certificate_verifies(
    votes: Seq<Vote>,
    committee: &Committee,
    header: HeaderView,
    i: int,
)
    requires
        header.verdict(committee, header.is_signed()) is Ok,
        forall|j: int| 0 <= j < votes.len() ==> committee.stake_of((#[trigger] votes[j]).author) > 0,
        0 <= i < VotesView::empty().appended_all(votes, committee, header).1.len(),
    ensures
        ({
            let c = VotesView::empty().appended_all(votes, committee, header).1[i];
            c.header == header && c.verdict(committee, true) is Ok
        }),
{
    let made = VotesView::empty().appended_all(votes, committee, header).1;
    lemma_votes_run(votes, committee, header);
    lemma_votes_staked(votes, committee, header);
    assert(made[i].header == header);
    lemma_votes_add_up(made[i].votes, committee);
}

/// The votes of a certificate come from the voters.
proof fn lemma_votes_staked(votes: Seq<Vote>, committee: &Committee, header: HeaderView)
    requires
        forall|j: int| 0 <= j < votes.len() ==> committee.stake_of((#[trigger] votes[j]).author) > 0,
    ensures
        ({
            let (after, made) = VotesView::empty().appended_all(votes, committee, header);
            &&& all_staked(after.votes, committee)
            &&& forall|i: int|
                0 <= i < made.len() ==> all_staked((#[trigger] made[i]).votes, committee)
        }),
    decreases votes.len(),
{
    if votes.len() > 0 {
        let rest = votes.drop_last();
        assert forall|j: int| 0 <= j < rest.len() implies committee.stake_of(
            (#[trigger] rest[j]).author,
        ) > 0 by {
            assert(rest[j] == votes[j]);
        }
        lemma_votes_staked(rest, committee, header);
        let (before, made) = VotesView::empty().appended_all(rest, committee, header);
        let vote = votes.last();
        assert(votes[votes.len() - 1] == vote);
        let counted = before.counted(vote, committee).votes;
        assert forall|k: int| 0 <= k < counted.len() implies committee.stake_of(
            (#[trigger] counted[k]).0,
        ) > 0 by {
            if k < before.votes.len() {
                assert(counted[k] == before.votes[k]);
            }
        }
        assert(all_staked(counted, committee));
    }
}

/// All voters of a list have stake.
spec fn all_staked(votes: Seq<(PublicKey, Signature)>, committee: &Committee) -> bool {
    forall|k: int| 0 <= k < votes.len() ==> committee.stake_of((#[trigger] votes[k]).0) > 0
}

/// The weight is the stake of the authorities that have given a certificate of the expected round, each
/// counted once.
pub proof fn lemma_weight_counts_authors(
    v: CertificatesView,
    c: CertificateView,
    committee: &Committee,
    rule: RoundRule,
)
    requires
        v.used.finite(),
        v.weight == committee.weight(ordered(v.used)),
    ensures
        ({
            let after = v.appended(c, committee, rule).0;
            after.used.finite() && after.weight == committee.weight(ordered(after.used))
        }),
{
    let a = c.origin();
    if !v.used.contains(a) {
        let more = v.used.insert(a);
        let names = ordered(more);
        lemma_ordered_finite(v.used);
        lemma_ordered_finite(more);
        assert(names.contains(a));
        let k = choose|k: int| 0 <= k < names.len() && names[k] == a;
        lemma_weight_remove(committee, names, k);
        lemma_remove_sorted(names, k);
        assert(names.remove(k).to_set() =~= v.used);
        lemma_sorted_unique(names.remove(k), ordered(v.used));
    }
}

/// Each solid-step vertex that is handed on has a source, and each source belongs to such a vertex.
pub proof fn lemma_sources_cover(
    v: CertificatesView,
    c: CertificateView,
    committee: &Committee,
    rule: RoundRule,
)
    requires
        v.solid_step_sources.dom() == v.solid_step_union,
    ensures
        v.appended(c, committee, rule).0.solid_step_sources.dom() == v.appended(
            c,
            committee,
            rule,
        ).0.solid_step_union,
{
    assert(v.appended(c, committee, rule).0.solid_step_sources.dom() =~= v.appended(
        c,
        committee,
        rule,
    ).0.solid_step_union);
}

/// Once the parents suffice for a round they go on to suffice, whatever certificates are added.
pub proof fn lemma_quorum_stays(
    v: CertificatesView,
    c: CertificateView,
    committee: &Committee,
    rule: RoundRule,
)
    requires
        v.suffices(rule),
        v.solid_step_union.finite(),
        c.header.solid_step_vertices.finite(),
        c.header.solid_step_vertices_merged.finite(),
    ensures
        v.appended(c, committee, rule).0.suffices(rule),
{
    let after = v.appended(c, committee, rule).0;
    let both = v.solid_step_union.union(step_vertices(c.header));
    assert(after.solid_step_union == v.solid_step_union || after.solid_step_union == both);
    vstd::set_lib::lemma_len_subset(v.solid_step_union, both);
}

/// It does not matter in which order, or how often, ways are merged.
pub proof fn lemma_merge_unordered(a: StepVertexSource, b: StepVertexSource, c: StepVertexSource)
    ensures
        merged_source(a, b) == merged_source(b, a),
        merged_source(a, merged_source(b, c)) == merged_source(merged_source(a, b), c),
        merged_source(a, a) == a,
{
}

} // verus!
