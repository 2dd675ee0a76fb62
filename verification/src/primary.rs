//! What a primary does with headers, votes and certificates.
use vstd::arithmetic::div_mod::lemma_mod_decreases;
use vstd::prelude::*;

use crate::aggregators::{
    lemma_stake_fits, stretch_start, CertificatesAggregator, CertificatesView, VotesAggregator,
    VotesView,
};
use crate::collections::{KeyMap, KeySet};
use crate::committee::{Committee, Round, RoundRule, Weight};
use crate::crypto::{votes_accepted, zero_signature, Digest, PublicKey};
use crate::dag::{certificate_views, lemma_push_contains};
use crate::error::DagError;
use crate::keys::Key;
use crate::messages::{
    Certificate, CertificateView, Header, HeaderView, ProposalParents, ProposalParentsView, Vote,
};

verus! {

/// What a primary knows of the headers, votes and certificates under way.
pub struct Core {
    name: PublicKey,
    committee: Committee,
    /// How many rounds behind the consensus the primary keeps.
    gc_depth: Round,
    /// The first round that is kept.
    gc_round: Round,
    /// The authors of the headers voted for, by round.
    last_voted: KeyMap<Round, KeySet<PublicKey>>,
    /// The headers under way, by round.
    processing: KeyMap<Round, KeySet<Digest>>,
    /// The primary's own headers that wait for a quorum.
    pending_headers: KeyMap<Digest, Header>,
    /// The votes for each of them.
    votes_aggregators: KeyMap<Digest, VotesAggregator>,
    /// The certificates that can be parents, by the round before the proposal.
    certificates_aggregators: KeyMap<Round, CertificatesAggregator>,
}

/// What a primary holds.
#[verifier::ext_equal]
pub struct CoreView {
    pub name: PublicKey,
    pub committee: Committee,
    pub gc_depth: Round,
    pub gc_round: Round,
    pub last_voted: Map<Round, Set<PublicKey>>,
    pub processing: Map<Round, Set<Digest>>,
    pub pending_headers: Map<Digest, HeaderView>,
    pub votes_aggregators: Map<Digest, VotesView>,
    pub certificates_aggregators: Map<Round, CertificatesView>,
}

/// What happens to a header under way.
pub enum HeaderEvent {
    /// It has arrived.
    Arrived,
    /// The certificates of its parents are known, or none if one is missing. `rule` is the rule of
    /// its round.
    Parents { parents: Vec<Certificate>, rule: RoundRule },
    /// It is known whether a batch of its payload is missing.
    Payload { missing: bool },
    /// It has been stored.
    Stored,
}

/// What is to be done with a header under way.
pub enum HeaderAction {
    /// Look for its parents.
    GetParents,
    /// Wait until what is missing has arrived.
    Suspend,
    /// Look for its payload.
    GetPayload,
    /// Store it.
    Store,
    /// Sign this vote, and count it.
    CountVote(Vote),
    /// Sign this vote, and send it to the author of the header.
    SendVote(Vote),
    /// Nothing: its author has had a vote in its round.
    Discard,
}

/// What a header event holds.
pub enum HeaderEventView {
    Arrived,
    Parents { parents: Seq<CertificateView>, rule: RoundRule },
    Payload { missing: bool },
    Stored,
}

impl View for HeaderEvent {
    type V = HeaderEventView;

    open spec fn view(&self) -> HeaderEventView {
        match self {
            HeaderEvent::Arrived => HeaderEventView::Arrived,
            HeaderEvent::Parents { parents, rule } => HeaderEventView::Parents {
                parents: certificate_views(parents@),
                rule: *rule,
            },
            HeaderEvent::Payload { missing } => HeaderEventView::Payload { missing: *missing },
            HeaderEvent::Stored => HeaderEventView::Stored,
        }
    }
}

/// What happens to a certificate under way.
pub enum CertificateEvent {
    /// It has arrived.
    Arrived,
    /// Its header has been dealt with.
    HeaderDone,
    /// It is known whether all its ancestors are there.
    Delivered { complete: bool },
    /// It has been stored. `rules` are the rules of the rounds in which it can be a parent, from the
    /// round after its own on.
    Stored { rules: Vec<RoundRule> },
}

/// What is to be done with a certificate under way.
pub enum CertificateAction {
    /// Deal with its header first.
    ProcessHeader,
    /// Look for its ancestors.
    GetAncestors,
    /// Wait until its ancestors have arrived.
    Suspend,
    /// Store it.
    Store,
    /// Hand these parents to the proposer, each with its round, and then the certificate to the
    /// consensus.
    Deliver(Vec<(ProposalParents, Round)>),
}

/// What a list of parents holds.
pub open spec fn parents_views(list: Seq<(ProposalParents, Round)>) -> Seq<
    (ProposalParentsView, Round),
> {
    list.map_values(|x: (ProposalParents, Round)| (x.0@, x.1))
}

/// A parent of a header of `round` is in the window of the wave.
pub open spec fn in_wave(round: Round, wave_length: Round, c: CertificateView) -> bool {
    stretch_start((round - 1) as Round, wave_length) <= c.round() < round
}

/// A parent of a header of `round` is in the window of the step.
pub open spec fn in_step(round: Round, step_length: Round, c: CertificateView) -> bool {
    stretch_start((round - 1) as Round, step_length) <= c.round()
}

/// The stake of the parents of a header of `round` that are in the window of the step.
pub open spec fn step_stake(
    round: Round,
    committee: &Committee,
    parents: Seq<CertificateView>,
) -> nat
    decreases parents.len(),
{
    if parents.len() == 0 {
        0
    } else {
        step_stake(round, committee, parents.drop_last()) + if in_step(
            round,
            committee.solid_step_length,
            parents.last(),
        ) {
            committee.stake_of(parents.last().origin()) as nat
        } else {
            0
        }
    }
}

/// The vertices that the parents of a header of `round` in the window of the step hand on.
pub open spec fn step_union(
    round: Round,
    committee: &Committee,
    parents: Seq<CertificateView>,
) -> Set<Digest>
    decreases parents.len(),
{
    if parents.len() == 0 {
        Set::empty()
    } else {
        let rest = step_union(round, committee, parents.drop_last());
        if in_step(round, committee.solid_step_length, parents.last()) {
            rest.union(parents.last().header.solid_step_vertices_merged)
        } else {
            rest
        }
    }
}

/// What becomes of a header by its parents: each must be in the window of the wave, and those in the
/// window of the step must bring what the rule of the round asks for.
pub open spec fn parents_verdict(
    header: HeaderView,
    committee: &Committee,
    parents: Seq<CertificateView>,
    rule: RoundRule,
) -> Result<(), DagError> {
    if exists|i: int|
        0 <= i < parents.len() && !in_wave(
            header.round,
            committee.solid_wave_length,
            #[trigger] parents[i],
        ) {
        Err(DagError::MalformedHeader(header.id))
    } else if rule.is_solid_step && step_union(header.round, committee, parents).len()
        < rule.processing_threshold {
        Err(DagError::HeaderRequiresQuorum(header.id))
    } else if !rule.is_solid_step && step_stake(header.round, committee, parents)
        < rule.processing_threshold {
        Err(DagError::HeaderRequiresQuorum(header.id))
    } else {
        Ok(())
    }
}

/// The set of a round, which is empty if there is none.
pub open spec fn at_round<T>(sets: Map<Round, Set<T>>, round: Round) -> Set<T> {
    if sets.contains_key(round) {
        sets[round]
    } else {
        Set::empty()
    }
}

impl CoreView {
    /// The primary when it starts.
    pub open spec fn started(name: PublicKey, committee: Committee, gc_depth: Round) -> CoreView {
        CoreView {
            name,
            committee,
            gc_depth,
            gc_round: 0,
            last_voted: Map::empty(),
            processing: Map::empty(),
            pending_headers: Map::empty(),
            votes_aggregators: Map::empty(),
            certificates_aggregators: Map::empty(),
        }
    }

    /// The certificates are collected each under its own round.
    pub open spec fn well_formed(self) -> bool {
        forall|r: Round| #[trigger]
            self.certificates_aggregators.contains_key(r)
                ==> self.certificates_aggregators[r].well_formed()
                && self.certificates_aggregators[r].expected_round == r
    }

    /// The author of a header has had a vote in its round.
    pub open spec fn has_voted(self, round: Round, author: PublicKey) -> bool {
        at_round(self.last_voted, round).contains(author)
    }

    /// A header is under way.
    pub open spec fn is_processing(self, round: Round, id: Digest) -> bool {
        at_round(self.processing, round).contains(id)
    }

    /// The primary with a header of its own that waits for votes.
    pub open spec fn awaiting(self, header: HeaderView) -> CoreView {
        CoreView {
            pending_headers: self.pending_headers.insert(header.id, header),
            votes_aggregators: if self.votes_aggregators.contains_key(header.id) {
                self.votes_aggregators
            } else {
                self.votes_aggregators.insert(header.id, VotesView::empty())
            },
            ..self
        }
    }

    /// The primary with a header under way.
    pub open spec fn entered(self, header: HeaderView) -> CoreView {
        CoreView {
            processing: self.processing.insert(
                header.round,
                at_round(self.processing, header.round).insert(header.id),
            ),
            ..self
        }
    }

    /// The primary after it has voted for a header.
    pub open spec fn voted(self, header: HeaderView) -> CoreView {
        CoreView {
            last_voted: self.last_voted.insert(
                header.round,
                at_round(self.last_voted, header.round).insert(header.author),
            ),
            ..self
        }
    }

    /// The primary's vote for a header, still to be signed.
    pub open spec fn vote(self, header: HeaderView) -> Vote {
        Vote {
            id: header.id,
            round: header.round,
            origin: header.author,
            author: self.name,
            signature: zero_signature(),
        }
    }

    /// What is done with a header on an event, and the primary after it.
    pub open spec fn header_step(self, header: HeaderView, event: HeaderEventView) -> (
        CoreView,
        Result<HeaderAction, DagError>,
    ) {
        match event {
            HeaderEventView::Arrived => (self.entered(header), Ok(HeaderAction::GetParents)),
            HeaderEventView::Parents { parents, rule } => (
                self,
                if parents.len() == 0 {
                    Ok(HeaderAction::Suspend)
                } else {
                    match parents_verdict(header, &self.committee, parents, rule) {
                        Ok(()) => Ok(HeaderAction::GetPayload),
                        Err(e) => Err(e),
                    }
                },
            ),
            HeaderEventView::Payload { missing } => (
                self,
                if missing {
                    Ok(HeaderAction::Suspend)
                } else {
                    Ok(HeaderAction::Store)
                },
            ),
            HeaderEventView::Stored => if self.has_voted(header.round, header.author) {
                (self, Ok(HeaderAction::Discard))
            } else {
                (
                    self.voted(header),
                    if header.author == self.name {
                        Ok(HeaderAction::CountVote(self.vote(header)))
                    } else {
                        Ok(HeaderAction::SendVote(self.vote(header)))
                    },
                )
            },
        }
    }

    /// The votes for a header of the primary.
    pub open spec fn votes_of(self, id: Digest) -> VotesView {
        if self.votes_aggregators.contains_key(id) {
            self.votes_aggregators[id]
        } else {
            VotesView::empty()
        }
    }

    /// What becomes of a vote: it counts for the header of the primary that it names, which leaves the
    /// pending ones when the vote completes its certificate.
    pub open spec fn vote_step(self, vote: Vote) -> (
        CoreView,
        Result<Option<CertificateView>, DagError>,
    ) {
        if !self.pending_headers.contains_key(vote.id) {
            (self, Ok(None))
        } else {
            let (votes, result) = self.votes_of(vote.id).appended(
                vote,
                &self.committee,
                self.pending_headers[vote.id],
            );
            (
                if result matches Ok(Some(_)) {
                    CoreView {
                        pending_headers: self.pending_headers.remove(vote.id),
                        votes_aggregators: self.votes_aggregators.remove(vote.id),
                        ..self
                    }
                } else {
                    CoreView {
                        votes_aggregators: self.votes_aggregators.insert(vote.id, votes),
                        ..self
                    }
                },
                result,
            )
        }
    }

    /// The certificates that can be parents of a proposal of the round after `round`.
    pub open spec fn parents_of(self, round: Round) -> CertificatesView {
        if self.certificates_aggregators.contains_key(round) {
            self.certificates_aggregators[round]
        } else {
            CertificatesView::empty(round)
        }
    }

    /// The primary after a certificate has been counted as a parent in the rounds from its own on, one
    /// for each rule, and the parents that it completes.
    pub open spec fn aggregated(self, c: CertificateView, rules: Seq<RoundRule>) -> (
        CoreView,
        Seq<(ProposalParentsView, Round)>,
    )
        decreases rules.len(),
    {
        if rules.len() == 0 {
            (self, seq![])
        } else {
            let (before, list) = self.aggregated(c, rules.drop_last());
            let target = (c.round() + rules.len() - 1) as Round;
            let (after, parents) = before.parents_of(target).appended(
                c,
                &self.committee,
                rules.last(),
            );
            (
                CoreView {
                    certificates_aggregators: before.certificates_aggregators.insert(target, after),
                    ..before
                },
                match parents {
                    Some(p) => list.push((p, target)),
                    None => list,
                },
            )
        }
    }

    /// The primary after the consensus has come to a round: what is more than the depth behind it is
    /// forgotten.
    pub open spec fn cleaned(self, consensus_round: Round) -> CoreView {
        if consensus_round <= self.gc_depth {
            self
        } else {
            let gc_round = (consensus_round - self.gc_depth) as Round;
            let recent = Set::new(|r: Round| r >= gc_round);
            let pending = self.pending_headers.restrict(
                Set::new(
                    |d: Digest|
                        self.pending_headers.contains_key(d) && self.pending_headers[d].round
                            >= gc_round,
                ),
            );
            CoreView {
                gc_round,
                last_voted: self.last_voted.restrict(recent),
                processing: self.processing.restrict(recent),
                certificates_aggregators: self.certificates_aggregators.restrict(recent),
                pending_headers: pending,
                votes_aggregators: self.votes_aggregators.restrict(pending.dom()),
                ..self
            }
        }
    }

    /// What becomes of a header from another primary, by its age and the rules.
    pub open spec fn header_verdict(self, header: HeaderView) -> Result<(), DagError> {
        if self.gc_round > header.round {
            Err(DagError::TooOld(header.id, header.round))
        } else {
            header.verdict(&self.committee, header.is_signed())
        }
    }

    /// What is done first with a certificate: its header is dealt with, unless it is under way.
    pub open spec fn certificate_route(self, c: CertificateView) -> CertificateAction {
        if self.is_processing(c.round(), c.header.id) {
            CertificateAction::GetAncestors
        } else {
            CertificateAction::ProcessHeader
        }
    }

    /// What becomes of a header that comes in from another primary: it is refused, and nothing
    /// changes, or it takes its first step.
    pub open spec fn header_received(self, header: HeaderView) -> (
        CoreView,
        Result<HeaderAction, DagError>,
    ) {
        match self.header_verdict(header) {
            Ok(()) => self.header_step(header, HeaderEventView::Arrived),
            Err(e) => (self, Err(e)),
        }
    }

    /// What becomes of a vote that comes in from another primary: it is refused, and nothing changes,
    /// or it is counted.
    pub open spec fn vote_received(self, vote: Vote) -> (
        CoreView,
        Result<Option<CertificateView>, DagError>,
    ) {
        match vote.verdict(&self.committee, vote.is_signed()) {
            Ok(()) => self.vote_step(vote),
            Err(e) => (self, Err(e)),
        }
    }

    /// What is done with a certificate that comes in from another primary: it is refused, or it takes
    /// its first step. Neither changes the primary.
    pub open spec fn certificate_received(self, c: CertificateView, votes_valid: bool) -> Result<
        CertificateAction,
        DagError,
    > {
        match self.certificate_verdict(c, votes_valid) {
            Ok(()) => Ok(self.certificate_route(c)),
            Err(e) => Err(e),
        }
    }

    /// What becomes of a certificate from another primary, by its age and the rules.
    pub open spec fn certificate_verdict(self, c: CertificateView, votes_valid: bool) -> Result<
        (),
        DagError,
    > {
        if self.gc_round > c.round() {
            Err(DagError::TooOld(c.digest(), c.round()))
        } else {
            c.verdict(&self.committee, votes_valid)
        }
    }
}

/// What the sets of a map hold.
spec fn sets_view<T: Key>(sets: Map<Round, KeySet<T>>) -> Map<Round, Set<T>> {
    sets.map_values(|s: KeySet<T>| s@)
}

/// What the headers of a map hold.
spec fn headers_view(headers: Map<Digest, Header>) -> Map<Digest, HeaderView> {
    headers.map_values(|h: Header| h@)
}

/// What the collections of votes of a map hold.
spec fn votes_view(votes: Map<Digest, VotesAggregator>) -> Map<Digest, VotesView> {
    votes.map_values(|v: VotesAggregator| v@)
}

/// What the collections of certificates of a map hold.
spec fn parents_view(parents: Map<Round, CertificatesAggregator>) -> Map<Round, CertificatesView> {
    parents.map_values(|p: CertificatesAggregator| p@)
}

impl View for Core {
    type V = CoreView;

    closed spec fn view(&self) -> CoreView {
        CoreView {
            name: self.name,
            committee: self.committee,
            gc_depth: self.gc_depth,
            gc_round: self.gc_round,
            last_voted: sets_view(self.last_voted@),
            processing: sets_view(self.processing@),
            pending_headers: headers_view(self.pending_headers@),
            votes_aggregators: votes_view(self.votes_aggregators@),
            certificates_aggregators: parents_view(self.certificates_aggregators@),
        }
    }
}

impl Core {
    pub fn new(name: PublicKey, committee: Committee, gc_depth: Round) -> (r: Self)
        ensures
            r@ == CoreView::started(name, committee, gc_depth),
            r@.well_formed(),
    {
        let r = Core {
            name,
            committee,
            gc_depth,
            gc_round: 0,
            last_voted: KeyMap::new(),
            processing: KeyMap::new(),
            pending_headers: KeyMap::new(),
            votes_aggregators: KeyMap::new(),
            certificates_aggregators: KeyMap::new(),
        };
        assert(r@ =~= CoreView::started(name, committee, gc_depth));
        r
    }

    /// Where an authority stands in the committee.
    pub fn node_index(&self, key: &PublicKey) -> (r: Option<usize>)
        ensures
            r == self@.committee.node_of(*key),
    {
        self.committee.node_index(key)
    }

    /// The first round that is kept.
    pub fn gc_round(&self) -> (r: Round)
        ensures
            r == self@.gc_round,
    {
        self.gc_round
    }

    /// Tracks a header of the primary itself, so that votes for it can be counted.
    pub fn track_own_header(&mut self, header: &Header)
        ensures
            final(self)@ == old(self)@.awaiting(header@),
            old(self)@.well_formed() ==> final(self)@.well_formed(),
    {
        let ghost before = self@;
        let _ = self.pending_headers.insert(header.id, header.clone());
        if !self.votes_aggregators.contains_key(&header.id) {
            let _ = self.votes_aggregators.insert(header.id, VotesAggregator::new());
        }
        proof {
            assert(self@.pending_headers =~= before.pending_headers.insert(header.id, header@));
            assert(self@.votes_aggregators =~= before.awaiting(header@).votes_aggregators);
            assert(self@ =~= before.awaiting(header@));
        }
    }

    /// Notes that a header is under way.
    fn add_processing(&mut self, header: &Header)
        ensures
            final(self)@ == old(self)@.entered(header@),
            old(self)@.well_formed() ==> final(self)@.well_formed(),
    {
        let ghost before = self@;
        let mut set: KeySet<Digest> = match self.processing.remove(&header.round) {
            Some(set) => set,
            None => KeySet::new(),
        };
        let _ = set.insert(header.id);
        let _ = self.processing.insert(header.round, set);
        proof {
            assert(self@.processing =~= before.entered(header@).processing);
            assert(self@ =~= before.entered(header@));
        }
    }

    /// Notes a vote for the author of a header in its round. Says whether it is the first.
    fn add_vote(&mut self, header: &Header) -> (r: bool)
        ensures
            r == !old(self)@.has_voted(header@.round, header@.author),
            final(self)@ == if r {
                old(self)@.voted(header@)
            } else {
                old(self)@
            },
            old(self)@.well_formed() ==> final(self)@.well_formed(),
    {
        let ghost before = self@;
        match self.last_voted.get(&header.round) {
            Some(set) => {
                if set.contains(&header.author) {
                    return false;
                }
            },
            None => {},
        }
        let mut set: KeySet<PublicKey> = match self.last_voted.remove(&header.round) {
            Some(set) => set,
            None => KeySet::new(),
        };
        let _ = set.insert(header.author);
        let _ = self.last_voted.insert(header.round, set);
        proof {
            assert(self@.last_voted =~= before.voted(header@).last_voted);
            assert(self@ =~= before.voted(header@));
        }
        true
    }

    /// The rules for the parents of a header.
    fn check_parents(&self, header: &Header, parents: &Vec<Certificate>, rule: RoundRule) -> (r:
        Result<(), DagError>)
        requires
            header@.round > 0,
            self@.committee.solid_step_length > 0,
            self@.committee.solid_wave_length > 0,
        ensures
            r == parents_verdict(header@, &self@.committee, certificate_views(parents@), rule),
    {
        let ghost views = certificate_views(parents@);
        let ghost committee = self@.committee;
        let round: Round = header.round;
        let step_length: Round = self.committee.solid_step_length();
        let wave_length: Round = self.committee.solid_wave_length();
        let last: Round = round - 1;
        proof {
            lemma_mod_decreases(last as nat, step_length as nat);
            lemma_mod_decreases(last as nat, wave_length as nat);
        }
        let regular_weak_start: Round = last - last % step_length;
        let commit_weak_start: Round = last - last % wave_length;
        let mut stake: Weight = 0;
        let mut union: KeySet<Digest> = KeySet::new();
        let mut i: usize = 0;
        while i < parents.len()
            invariant
                i <= parents@.len(),
                views == certificate_views(parents@),
                committee == self@.committee,
                round == header@.round,
                regular_weak_start == stretch_start(
                    (round - 1) as Round,
                    committee.solid_step_length,
                ),
                commit_weak_start == stretch_start(
                    (round - 1) as Round,
                    committee.solid_wave_length,
                ),
                forall|j: int|
                    0 <= j < i ==> in_wave(
                        round,
                        committee.solid_wave_length,
                        #[trigger] views[j],
                    ),
                stake == step_stake(round, &committee, views.take(i as int)),
                stake <= i * u32::MAX,
                rule.is_solid_step ==> union@ == step_union(
                    round,
                    &committee,
                    views.take(i as int),
                ),
            decreases parents@.len() - i,
        {
            let parent: &Certificate = &parents[i];
            proof {
                assert(views[i as int] == parent@);
                assert(views.take(i + 1).drop_last() =~= views.take(i as int));
                assert(views.take(i + 1).last() == parent@);
                lemma_stake_fits(i as nat);
            }
            if parent.round() < commit_weak_start || parent.round() >= round {
                assert(!in_wave(round, committee.solid_wave_length, views[i as int]));
                return Err(DagError::MalformedHeader(header.id));
            }
            if parent.round() >= regular_weak_start {
                stake = stake + self.committee.stake(&parent.origin()) as Weight;
                if rule.is_solid_step {
                    union.extend(&parent.header.solid_step_vertices_merged);
                }
            }
            i = i + 1;
        }
        assert(views.take(i as int) =~= views);
        if rule.is_solid_step {
            if (union.len() as u64) < rule.processing_threshold as u64 {
                return Err(DagError::HeaderRequiresQuorum(header.id));
            }
        } else if stake < rule.processing_threshold as Weight {
            return Err(DagError::HeaderRequiresQuorum(header.id));
        }
        Ok(())
    }

    /// Takes a header one step further.
    pub fn process_header(&mut self, header: &Header, event: HeaderEvent) -> (r: Result<
        HeaderAction,
        DagError,
    >)
        requires
            event matches HeaderEvent::Parents { parents, rule } ==> parents@.len() > 0 ==> ({
                &&& header@.round > 0
                &&& old(self)@.committee.solid_step_length > 0
                &&& old(self)@.committee.solid_wave_length > 0
            }),
        ensures
            (final(self)@, r) == old(self)@.header_step(header@, event@),
            old(self)@.well_formed() ==> final(self)@.well_formed(),
    {
        match event {
            HeaderEvent::Arrived => {
                self.add_processing(header);
                Ok(HeaderAction::GetParents)
            },
            HeaderEvent::Parents { parents, rule } => {
                assert(certificate_views(parents@).len() == parents@.len());
                if parents.len() == 0 {
                    return Ok(HeaderAction::Suspend);
                }
                match self.check_parents(header, &parents, rule) {
                    Ok(()) => Ok(HeaderAction::GetPayload),
                    Err(e) => Err(e),
                }
            },
            HeaderEvent::Payload { missing } => {
                if missing {
                    Ok(HeaderAction::Suspend)
                } else {
                    Ok(HeaderAction::Store)
                }
            },
            HeaderEvent::Stored => {
                if !self.add_vote(header) {
                    return Ok(HeaderAction::Discard);
                }
                let vote: Vote = Vote::new(header, &self.name);
                if vote.origin.same(&self.name) {
                    Ok(HeaderAction::CountVote(vote))
                } else {
                    Ok(HeaderAction::SendVote(vote))
                }
            },
        }
    }

    /// Counts a vote for a header of the primary itself. Gives the certificate that it completes.
    pub fn process_vote(&mut self, vote: Vote) -> (r: Result<Option<Certificate>, DagError>)
        ensures
            ({
                let (after, result) = old(self)@.vote_step(vote);
                &&& final(self)@ == after
                &&& match r {
                    Ok(Some(certificate)) => result == Ok::<Option<CertificateView>, DagError>(
                        Some(certificate@),
                    ),
                    Ok(None) => result == Ok::<Option<CertificateView>, DagError>(None),
                    Err(e) => result == Err::<Option<CertificateView>, DagError>(e),
                }
            }),
            old(self)@.well_formed() ==> final(self)@.well_formed(),
    {
        let ghost before = self@;
        let header: Header = match self.pending_headers.get(&vote.id) {
            Some(header) => header.clone(),
            None => {
                return Ok(None);
            },
        };
        assert(header@ == before.pending_headers[vote.id]);
        let mut votes: VotesAggregator = match self.votes_aggregators.remove(&vote.id) {
            Some(votes) => votes,
            None => VotesAggregator::new(),
        };
        assert(votes@ == before.votes_of(vote.id));
        let result: Result<Option<Certificate>, DagError> = votes.append(
            vote,
            &self.committee,
            &header,
        );
        match result {
            Ok(Some(certificate)) => {
                let _ = self.pending_headers.remove(&vote.id);
                proof {
                    assert(self@.pending_headers =~= before.pending_headers.remove(vote.id));
                    assert(self@.votes_aggregators =~= before.votes_aggregators.remove(vote.id));
                    assert(self@ =~= before.vote_step(vote).0);
                }
                Ok(Some(certificate))
            },
            Ok(None) => {
                let _ = self.votes_aggregators.insert(vote.id, votes);
                proof {
                    assert(self@.votes_aggregators =~= before.vote_step(vote).0.votes_aggregators);
                    assert(self@ =~= before.vote_step(vote).0);
                }
                Ok(None)
            },
            Err(e) => {
                let _ = self.votes_aggregators.insert(vote.id, votes);
                proof {
                    assert(self@.votes_aggregators =~= before.vote_step(vote).0.votes_aggregators);
                    assert(self@ =~= before.vote_step(vote).0);
                }
                Err(e)
            },
        }
    }

    /// Counts a certificate as a parent in the rounds from its own on, one for each rule.
    fn aggregate(&mut self, certificate: &Certificate, rules: &Vec<RoundRule>) -> (r: Vec<
        (ProposalParents, Round),
    >)
        requires
            old(self)@.well_formed(),
            old(self)@.committee.solid_wave_length == rules@.len(),
            rules@.len() > 0 ==> old(self)@.committee.solid_step_length > 0,
            certificate@.round() + rules@.len() <= Round::MAX,
        ensures
            (final(self)@, parents_views(r@)) == old(self)@.aggregated(certificate@, rules@),
            final(self)@.well_formed(),
    {
        let ghost before = self@;
        let ghost c = certificate@;
        let start: Round = certificate.round();
        let mut list: Vec<(ProposalParents, Round)> = Vec::new();
        let mut i: usize = 0;
        assert(parents_views(list@) =~= seq![]);
        while i < rules.len()
            invariant
                i <= rules@.len(),
                start == c.round(),
                c == certificate@,
                before.committee.solid_wave_length == rules@.len(),
                rules@.len() > 0 ==> before.committee.solid_step_length > 0,
                c.round() + rules@.len() <= Round::MAX,
                self@.committee == before.committee,
                (self@, parents_views(list@)) == before.aggregated(c, rules@.take(i as int)),
                self@.well_formed(),
            decreases rules@.len() - i,
        {
            let target: Round = start + i as Round;
            let ghost held = self@;
            let ghost listed = parents_views(list@);
            let mut collected: CertificatesAggregator = match self.certificates_aggregators.remove(
                &target,
            ) {
                Some(collected) => collected,
                None => CertificatesAggregator::new(target),
            };
            proof {
                assert(collected@ == held.parents_of(target));
                if held.certificates_aggregators.contains_key(target) {
                    assert(held.certificates_aggregators[target].well_formed());
                }
            }
            let result: Result<Option<ProposalParents>, DagError> = collected.append(
                certificate.clone(),
                &self.committee,
                rules[i],
            );
            let ghost after = collected@;
            let _ = self.certificates_aggregators.insert(target, collected);
            match result {
                Ok(Some(parents)) => {
                    let ghost p = parents@;
                    list.push((parents, target));
                    assert(parents_views(list@) =~= listed.push((p, target)));
                },
                Ok(None) => {},
                Err(_) => {},
            }
            proof {
                assert(rules@.take(i + 1).drop_last() =~= rules@.take(i as int));
                assert(rules@.take(i + 1).last() == rules@[i as int]);
                assert(self@.certificates_aggregators =~= held.certificates_aggregators.insert(
                    target,
                    after,
                ));
                assert(self@ =~= (CoreView {
                    certificates_aggregators: held.certificates_aggregators.insert(target, after),
                    ..held
                }));
            }
            i = i + 1;
        }
        assert(rules@.take(i as int) =~= rules@);
        list
    }

    /// What is to be done first with a certificate.
    fn route_certificate(&self, certificate: &Certificate) -> (r: CertificateAction)
        ensures
            r == self@.certificate_route(certificate@),
    {
        let known: bool = match self.processing.get(&certificate.header.round) {
            Some(set) => set.contains(&certificate.header.id),
            None => false,
        };
        if known {
            CertificateAction::GetAncestors
        } else {
            CertificateAction::ProcessHeader
        }
    }

    /// Takes a certificate one step further.
    pub fn process_certificate(&mut self, certificate: &Certificate, event: CertificateEvent) -> (r:
        CertificateAction)
        requires
            old(self)@.well_formed(),
            event matches CertificateEvent::Stored { rules } ==> ({
                &&& old(self)@.committee.solid_wave_length == rules@.len()
                &&& rules@.len() > 0 ==> old(self)@.committee.solid_step_length > 0
                &&& certificate@.round() + rules@.len() <= Round::MAX
            }),
        ensures
            match event {
                CertificateEvent::Arrived => final(self)@ == old(self)@ && r == old(
                    self,
                )@.certificate_route(certificate@),
                CertificateEvent::HeaderDone => final(self)@ == old(self)@ && r
                    == CertificateAction::GetAncestors,
                CertificateEvent::Delivered { complete } => final(self)@ == old(self)@ && r
                    == if complete {
                    CertificateAction::Store
                } else {
                    CertificateAction::Suspend
                },
                CertificateEvent::Stored { rules } => match r {
                    CertificateAction::Deliver(list) => (final(self)@, parents_views(list@))
                        == old(self)@.aggregated(certificate@, rules@),
                    _ => false,
                },
            },
            final(self)@.well_formed(),
    {
        match event {
            CertificateEvent::Arrived => self.route_certificate(certificate),
            CertificateEvent::HeaderDone => CertificateAction::GetAncestors,
            CertificateEvent::Delivered { complete } => {
                if complete {
                    CertificateAction::Store
                } else {
                    CertificateAction::Suspend
                }
            },
            CertificateEvent::Stored { rules } => {
                CertificateAction::Deliver(self.aggregate(certificate, &rules))
            },
        }
    }

    /// Checks the age and the rules of a header from another primary.
    pub fn sanitize_header(&self, header: &Header) -> (r: Result<(), DagError>)
        ensures
            r == self@.header_verdict(header@),
    {
        if self.gc_round > header.round {
            return Err(DagError::TooOld(header.id, header.round));
        }
        header.verify(&self.committee)
    }

    /// Checks the rules of a vote from another primary.
    pub fn sanitize_vote(&self, vote: &Vote) -> (r: Result<(), DagError>)
        ensures
            r == vote.verdict(&self@.committee, vote.is_signed()),
    {
        vote.verify(&self.committee)
    }

    /// Checks the age and the rules of a certificate from another primary. The check of the signatures
    /// of its votes is the only part that rests on chance.
    pub fn sanitize_certificate(&self, certificate: &Certificate) -> (r: Result<(), DagError>)
        ensures
            exists|draw: Seq<u8>|
                r == self@.certificate_verdict(
                    certificate@,
                    #[trigger] votes_accepted(certificate@.digest(), certificate.votes@, draw),
                ),
            certificate.votes@.len() == 0 ==> r == self@.certificate_verdict(certificate@, true),
    {
        if self.gc_round > certificate.round() {
            proof {
                let none: Seq<u8> = seq![];
                let accepted = votes_accepted(certificate@.digest(), certificate.votes@, none);
                assert(self@.certificate_verdict(certificate@, accepted) is Err);
            }
            return Err(DagError::TooOld(certificate.digest(), certificate.round()));
        }
        certificate.verify(&self.committee)
    }

    /// Takes in a header from another primary: checks it, and takes its first step only if it passes.
    pub fn receive_header(&mut self, header: &Header) -> (r: Result<HeaderAction, DagError>)
        ensures
            (final(self)@, r) == old(self)@.header_received(header@),
            old(self)@.well_formed() ==> final(self)@.well_formed(),
    {
        match self.sanitize_header(header) {
            Ok(()) => self.process_header(header, HeaderEvent::Arrived),
            Err(e) => Err(e),
        }
    }

    /// Takes in a vote from another primary: checks it, and counts it only if it passes. Gives the
    /// certificate that it completes.
    pub fn receive_vote(&mut self, vote: Vote) -> (r: Result<Option<Certificate>, DagError>)
        ensures
            ({
                let (after, result) = old(self)@.vote_received(vote);
                &&& final(self)@ == after
                &&& match r {
                    Ok(Some(certificate)) => result == Ok::<Option<CertificateView>, DagError>(
                        Some(certificate@),
                    ),
                    Ok(None) => result == Ok::<Option<CertificateView>, DagError>(None),
                    Err(e) => result == Err::<Option<CertificateView>, DagError>(e),
                }
            }),
            old(self)@.well_formed() ==> final(self)@.well_formed(),
    {
        match self.sanitize_vote(&vote) {
            Ok(()) => self.process_vote(vote),
            Err(e) => Err(e),
        }
    }

    /// Takes in a certificate from another primary: checks it, and gives its first step only if it
    /// passes. The check of the signatures of its votes is the only part that rests on chance.
    pub fn receive_certificate(&self, certificate: &Certificate) -> (r: Result<
        CertificateAction,
        DagError,
    >)
        ensures
            exists|draw: Seq<u8>|
                r == self@.certificate_received(
                    certificate@,
                    #[trigger] votes_accepted(certificate@.digest(), certificate.votes@, draw),
                ),
            certificate.votes@.len() == 0 ==> r == self@.certificate_received(certificate@, true),
    {
        match self.sanitize_certificate(certificate) {
            Ok(()) => Ok(self.route_certificate(certificate)),
            Err(e) => Err(e),
        }
    }

    /// Forgets what is more than the depth behind the round that the consensus has come to.
    pub fn cleanup(&mut self, consensus_round: Round)
        ensures
            final(self)@ == old(self)@.cleaned(consensus_round),
            old(self)@.well_formed() ==> final(self)@.well_formed(),
    {
        if consensus_round <= self.gc_depth {
            return;
        }
        let ghost before = self@;
        let gc_round: Round = consensus_round - self.gc_depth;
        let ghost recent = Set::new(|r: Round| r >= gc_round);
        let voted: Vec<Round> = rounds_before(&self.last_voted.key_list(), gc_round);
        self.last_voted.remove_all(&voted);
        assert(self@.last_voted =~= before.last_voted.restrict(recent));
        let processing: Vec<Round> = rounds_before(&self.processing.key_list(), gc_round);
        self.processing.remove_all(&processing);
        assert(self@.processing =~= before.processing.restrict(recent));
        let collected: Vec<Round> = rounds_before(
            &self.certificates_aggregators.key_list(),
            gc_round,
        );
        self.certificates_aggregators.remove_all(&collected);
        assert(self@.certificates_aggregators =~= before.certificates_aggregators.restrict(recent));
        let old_headers: Vec<Digest> = self.headers_before(gc_round);
        self.pending_headers.remove_all(&old_headers);
        proof {
            assert forall|d: Digest| before.pending_headers.contains_key(d) implies #[trigger]
                old_headers@.to_set().contains(d) == (before.pending_headers[d].round
                < gc_round) by {
                assert(old_headers@.contains(d) == (before.pending_headers[d].round < gc_round));
            }
            assert(self@.pending_headers =~= before.cleaned(consensus_round).pending_headers);
        }
        let ghost held = self@;
        let orphans: Vec<Digest> = self.orphans();
        self.votes_aggregators.remove_all(&orphans);
        proof {
            assert forall|d: Digest| before.votes_aggregators.contains_key(d) implies #[trigger]
                orphans@.to_set().contains(d) == !held.pending_headers.contains_key(d) by {
                assert(orphans@.contains(d) == !held.pending_headers.contains_key(d));
            }
            assert(self@.votes_aggregators =~= before.cleaned(consensus_round).votes_aggregators);
        }
        self.gc_round = gc_round;
        assert(self@ =~= before.cleaned(consensus_round));
    }

    /// The ids of the pending headers before a round.
    fn headers_before(&self, round: Round) -> (r: Vec<Digest>)
        ensures
            forall|d: Digest| #[trigger]
                r@.contains(d) == (self@.pending_headers.contains_key(d)
                    && self@.pending_headers[d].round < round),
    {
        let ids: Vec<Digest> = self.pending_headers.key_list();
        let mut r: Vec<Digest> = Vec::new();
        let mut i: usize = 0;
        while i < ids.len()
            invariant
                i <= ids@.len(),
                forall|d: Digest| #[trigger]
                    ids@.contains(d) == self@.pending_headers.contains_key(d),
                forall|d: Digest| #[trigger]
                    r@.contains(d) == (ids@.take(i as int).contains(d)
                        && self@.pending_headers[d].round < round),
            decreases ids@.len() - i,
        {
            let id: Digest = ids[i];
            let ghost held = r@;
            assert(ids@.contains(id));
            match self.pending_headers.get(&id) {
                Some(header) => {
                    assert(header@ == self@.pending_headers[id]);
                    if header.round < round {
                        r.push(id);
                    }
                },
                None => {},
            }
            proof {
                let taken = ids@.take(i as int);
                assert(ids@.take(i + 1) =~= taken.push(id));
                assert forall|d: Digest| #[trigger]
                    r@.contains(d) == (ids@.take(i + 1).contains(d)
                        && self@.pending_headers[d].round < round) by {
                    lemma_push_contains(taken, id, d);
                    lemma_push_contains(held, id, d);
                    assert(held.contains(d) == (taken.contains(d) && self@.pending_headers[d].round
                        < round));
                }
            }
            i = i + 1;
        }
        assert(ids@.take(i as int) =~= ids@);
        r
    }

    /// The ids under which votes are collected although no header is pending.
    fn orphans(&self) -> (r: Vec<Digest>)
        ensures
            forall|d: Digest| #[trigger]
                r@.contains(d) == (self@.votes_aggregators.contains_key(d)
                    && !self@.pending_headers.contains_key(d)),
    {
        let ids: Vec<Digest> = self.votes_aggregators.key_list();
        let mut r: Vec<Digest> = Vec::new();
        let mut i: usize = 0;
        while i < ids.len()
            invariant
                i <= ids@.len(),
                forall|d: Digest| #[trigger]
                    ids@.contains(d) == self@.votes_aggregators.contains_key(d),
                forall|d: Digest| #[trigger]
                    r@.contains(d) == (ids@.take(i as int).contains(d)
                        && !self@.pending_headers.contains_key(d)),
            decreases ids@.len() - i,
        {
            let id: Digest = ids[i];
            let ghost held = r@;
            if !self.pending_headers.contains_key(&id) {
                r.push(id);
            }
            proof {
                let taken = ids@.take(i as int);
                assert(ids@.take(i + 1) =~= taken.push(id));
                assert forall|d: Digest| #[trigger]
                    r@.contains(d) == (ids@.take(i + 1).contains(d)
                        && !self@.pending_headers.contains_key(d)) by {
                    lemma_push_contains(taken, id, d);
                    lemma_push_contains(held, id, d);
                    assert(held.contains(d) == (taken.contains(d)
                        && !self@.pending_headers.contains_key(d)));
                }
            }
            i = i + 1;
        }
        assert(ids@.take(i as int) =~= ids@);
        r
    }
}

/// The rounds of a list that are before a round.
fn rounds_before(rounds: &Vec<Round>, bound: Round) -> (r: Vec<Round>)
    ensures
        forall|q: Round| #[trigger] r@.contains(q) == (rounds@.contains(q) && q < bound),
        forall|q: Round| #[trigger] r@.to_set().contains(q) == (rounds@.contains(q) && q < bound),
{
    let mut r: Vec<Round> = Vec::new();
    let mut i: usize = 0;
    while i < rounds.len()
        invariant
            i <= rounds@.len(),
            forall|q: Round| #[trigger]
                r@.contains(q) == (rounds@.take(i as int).contains(q) && q < bound),
        decreases rounds@.len() - i,
    {
        let round: Round = rounds[i];
        let ghost held = r@;
        if round < bound {
            r.push(round);
        }
        proof {
            let taken = rounds@.take(i as int);
            assert(rounds@.take(i + 1) =~= taken.push(round));
            assert forall|q: Round| #[trigger]
                r@.contains(q) == (rounds@.take(i + 1).contains(q) && q < bound) by {
                lemma_push_contains(taken, round, q);
                lemma_push_contains(held, round, q);
                assert(held.contains(q) == (taken.contains(q) && q < bound));
            }
        }
        i = i + 1;
    }
    assert(rounds@.take(i as int) =~= rounds@);
    r
}

} // verus!
