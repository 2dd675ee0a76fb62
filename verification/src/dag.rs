//! The local DAG of certificates and what has been committed of it.
use vstd::prelude::*;

use crate::collections::{KeyMap, KeySet};
use crate::committee::Round;
use crate::crypto::{Digest, PublicKey};
use crate::keys::{lemma_ordered, ordered, strictly_sorted, Key};
use crate::messages::{Certificate, CertificateView};

verus! {

/// What has been decided of a certificate.
#[derive(Clone, Copy, Debug, PartialEq, Eq, Structural)]
pub enum CommitStatus {
    /// It will be committed.
    OneValent,
    /// It will not be committed for its own sake.
    ZeroValent,
    /// The fast path could not decide.
    Bivalent,
    /// Nothing has been decided yet.
    Pending,
}

/// The place of a certificate in the DAG: an authority has at most one in each round.
#[derive(Clone, Copy, Debug, PartialEq, Eq, PartialOrd, Ord, Hash)]
pub struct DagPosition {
    pub round: Round,
    pub author: PublicKey,
}

impl Key for DagPosition {
    open spec fn below(self, other: Self) -> bool {
        self.round < other.round || (self.round == other.round && self.author.below(other.author))
    }

    proof fn below_irreflexive(a: Self) {
        PublicKey::below_irreflexive(a.author);
    }

    proof fn below_transitive(a: Self, b: Self, c: Self) {
        if a.round == b.round && b.round == c.round {
            PublicKey::below_transitive(a.author, b.author, c.author);
        }
    }

    proof fn below_total(a: Self, b: Self) {
        PublicKey::below_total(a.author, b.author);
    }

    fn is_below(&self, other: &Self) -> (r: bool) {
        self.round < other.round || (self.round == other.round && self.author.is_below(
            &other.author,
        ))
    }

    fn same(&self, other: &Self) -> (r: bool) {
        self.round == other.round && self.author.same(&other.author)
    }
}

/// A certificate in the DAG, with its digest and its status.
pub struct DagEntry {
    pub digest: Digest,
    pub certificate: Certificate,
    pub status: CommitStatus,
}

/// What an entry of the DAG holds.
#[verifier::ext_equal]
pub struct EntryView {
    pub digest: Digest,
    pub certificate: CertificateView,
    pub status: CommitStatus,
}

impl View for DagEntry {
    type V = EntryView;

    open spec fn view(&self) -> EntryView {
        EntryView {
            digest: self.digest,
            certificate: self.certificate@,
            status: self.status,
        }
    }
}

impl CertificateView {
    /// Where the certificate belongs in the DAG.
    pub open spec fn position(self) -> DagPosition {
        DagPosition { round: self.round(), author: self.origin() }
    }

    /// The entry of the certificate with a status.
    pub open spec fn entry(self, status: CommitStatus) -> EntryView {
        EntryView { digest: self.digest(), certificate: self, status }
    }
}

/// What the consensus knows: the DAG and how far it has been committed.
pub struct State {
    /// The highest round among all committed certificates.
    last_committed_certificate_round: Round,
    /// The round of the last leader whose commit path was accepted.
    last_committed_leader_round: Round,
    /// The last committed round of each authority, by which no certificate is committed twice.
    last_committed: KeyMap<PublicKey, Round>,
    /// The certificates that are not garbage collected.
    dag: KeyMap<DagPosition, DagEntry>,
    /// Where each certificate stands, by its digest.
    certificate_index: KeyMap<Digest, DagPosition>,
    /// Where each certificate stands, by its digest and by the id of its header.
    digest_index: KeyMap<Digest, DagPosition>,
    /// The rounds that the fast path left undecided.
    slow_path_pending_rounds: KeySet<Round>,
}

/// What a state holds.
#[verifier::ext_equal]
pub struct StateView {
    pub last_committed_certificate_round: Round,
    pub last_committed_leader_round: Round,
    pub last_committed: Map<PublicKey, Round>,
    pub dag: Map<DagPosition, EntryView>,
    pub certificate_index: Map<Digest, DagPosition>,
    pub digest_index: Map<Digest, DagPosition>,
    pub slow_path_pending_rounds: Set<Round>,
}

impl View for State {
    type V = StateView;

    closed spec fn view(&self) -> StateView {
        StateView {
            last_committed_certificate_round: self.last_committed_certificate_round,
            last_committed_leader_round: self.last_committed_leader_round,
            last_committed: self.last_committed@,
            dag: dag_view(self.dag@),
            certificate_index: self.certificate_index@,
            digest_index: self.digest_index@,
            slow_path_pending_rounds: self.slow_path_pending_rounds@,
        }
    }
}

/// What the entries of a DAG hold.
spec fn dag_view(dag: Map<DagPosition, DagEntry>) -> Map<DagPosition, EntryView> {
    dag.map_values(|entry: DagEntry| entry@)
}

/// The place of an authority in a round.
pub open spec fn position(round: Round, author: PublicKey) -> DagPosition {
    DagPosition { round, author }
}

/// What the certificates of a list hold.
pub open spec fn certificate_views(certificates: Seq<Certificate>) -> Seq<CertificateView> {
    certificates.map_values(|c: Certificate| c@)
}

/// A sequence with one more element contains that element and what it contained.
pub(crate) proof fn lemma_push_contains<T>(s: Seq<T>, x: T, y: T)
    ensures
        s.push(x).contains(y) == (s.contains(y) || x == y),
{
    if s.contains(y) {
        let i = choose|i: int| 0 <= i < s.len() && s[i] == y;
        assert(s.push(x)[i] == y);
    }
    if x == y {
        assert(s.push(x)[s.len() as int] == y);
    }
    if s.push(x).contains(y) && x != y {
        let i = choose|i: int| 0 <= i < s.push(x).len() && s.push(x)[i] == y;
        assert(s[i] == y);
    }
}

/// The greater of two rounds.
pub open spec fn later(a: Round, b: Round) -> Round {
    if a < b {
        b
    } else {
        a
    }
}

/// `highest` is the last committed round of some authority, and no authority has a later one. It is
/// zero where nothing has been committed.
pub open spec fn is_maximum(highest: Round, committed: Map<PublicKey, Round>) -> bool {
    &&& forall|a: PublicKey| #[trigger] committed.contains_key(a) ==> committed[a] <= highest
    &&& highest == 0 || exists|a: PublicKey| #[trigger]
        committed.contains_key(a) && committed[a] == highest
}

impl StateView {
    /// The state before any certificate.
    pub open spec fn empty() -> StateView {
        StateView {
            last_committed_certificate_round: 0,
            last_committed_leader_round: 0,
            last_committed: Map::empty(),
            dag: Map::empty(),
            certificate_index: Map::empty(),
            digest_index: Map::empty(),
            slow_path_pending_rounds: Set::empty(),
        }
    }

    /// Each certificate stands at its place under its own digest; the indexes lead to certificates
    /// of the DAG that have the digest looked up; and the highest committed round is the maximum of
    /// the authorities' last committed rounds.
    pub open spec fn well_formed(self) -> bool {
        &&& forall|p: DagPosition| #[trigger]
            self.dag.contains_key(p) ==> self.dag[p].certificate.position() == p
                && self.dag[p].digest == self.dag[p].certificate.digest()
        &&& forall|d: Digest| #[trigger]
            self.certificate_index.contains_key(d) ==> self.dag.contains_key(
                self.certificate_index[d],
            ) && self.dag[self.certificate_index[d]].digest == d
        &&& forall|d: Digest| #[trigger]
            self.digest_index.contains_key(d) ==> self.dag.contains_key(self.digest_index[d]) && (
            self.dag[self.digest_index[d]].digest == d
                || self.dag[self.digest_index[d]].certificate.header.id == d)
        &&& is_maximum(self.last_committed_certificate_round, self.last_committed)
        &&& self.certificate_index.dom().finite()
    }

    /// The last committed round of an authority, or zero.
    pub open spec fn committed_round(self, author: PublicKey) -> Round {
        if self.last_committed.contains_key(author) {
            self.last_committed[author]
        } else {
            0
        }
    }

    /// A certificate of this authority and of this round or a later one has been committed.
    pub open spec fn is_committed(self, c: CertificateView) -> bool {
        self.last_committed.contains_key(c.origin()) && self.last_committed[c.origin()]
            >= c.round()
    }

    /// The indexes without a digest and a header id.
    pub open spec fn without_indexes(self, digest: Digest, id: Digest) -> StateView {
        StateView {
            certificate_index: self.certificate_index.remove(digest),
            digest_index: self.digest_index.remove(digest).remove(id),
            ..self
        }
    }

    /// The state with one more certificate, in place of what stood at its position.
    pub open spec fn inserted(self, c: CertificateView) -> StateView {
        let p = c.position();
        let cleared = if self.dag.contains_key(p) {
            self.without_indexes(self.dag[p].digest, self.dag[p].certificate.header.id)
        } else {
            self
        };
        StateView {
            dag: self.dag.insert(p, c.entry(CommitStatus::Pending)),
            certificate_index: cleared.certificate_index.insert(c.digest(), p),
            digest_index: cleared.digest_index.insert(c.digest(), p).insert(c.header.id, p),
            ..self
        }
    }

    /// The state with a list of certificates inserted in turn.
    pub open spec fn inserted_all(self, certificates: Seq<CertificateView>) -> StateView
        decreases certificates.len(),
    {
        if certificates.len() == 0 {
            self
        } else {
            self.inserted_all(certificates.drop_last()).inserted(certificates.last())
        }
    }

    /// The authorities with a certificate in a round.
    pub open spec fn authors(self, round: Round) -> Set<PublicKey> {
        Set::new(|a: PublicKey| self.dag.contains_key(position(round, a)))
    }

    /// The state in which the certificates of round zero count as committed.
    pub open spec fn started(self) -> StateView {
        StateView {
            last_committed: Map::new(|a: PublicKey| self.authors(0).contains(a), |a: PublicKey| 0u64),
            ..self
        }
    }

    /// The certificate with a digest.
    pub open spec fn lookup(self, digest: Digest) -> Option<EntryView> {
        if self.certificate_index.contains_key(digest) && self.dag.contains_key(
            self.certificate_index[digest],
        ) {
            Some(self.dag[self.certificate_index[digest]])
        } else {
            None
        }
    }

    /// The state after a certificate has been committed.
    pub open spec fn recorded(self, c: CertificateView) -> StateView {
        StateView {
            last_committed: self.last_committed.insert(
                c.origin(),
                later(self.committed_round(c.origin()), c.round()),
            ),
            last_committed_certificate_round: later(
                self.last_committed_certificate_round,
                c.round(),
            ),
            ..self
        }
    }

    /// The state after a list of certificates has been committed.
    pub open spec fn recorded_all(self, certificates: Seq<CertificateView>) -> StateView
        decreases certificates.len(),
    {
        if certificates.len() == 0 {
            self
        } else {
            self.recorded_all(certificates.drop_last()).recorded(certificates.last())
        }
    }

    /// A position is not garbage collected: it is at most `gc_depth` rounds behind the highest
    /// committed round, and its authority has no later certificate committed.
    pub open spec fn keeps(self, gc_depth: Round, p: DagPosition) -> bool {
        &&& p.round + gc_depth >= self.last_committed_certificate_round
        &&& p.round >= self.committed_round(p.author)
    }

    /// `d` is the digest of a certificate that is garbage collected.
    pub open spec fn drops_digest(self, gc_depth: Round, d: Digest) -> bool {
        exists|p: DagPosition| #[trigger]
            self.dag.contains_key(p) && !self.keeps(gc_depth, p) && self.dag[p].digest == d
    }

    /// `d` is the header id of a certificate that is garbage collected.
    pub open spec fn drops_id(self, gc_depth: Round, d: Digest) -> bool {
        exists|p: DagPosition| #[trigger]
            self.dag.contains_key(p) && !self.keeps(gc_depth, p)
                && self.dag[p].certificate.header.id == d
    }

    /// The state without the certificates that are garbage collected.
    pub open spec fn cleaned(self, gc_depth: Round) -> StateView {
        StateView {
            dag: self.dag.restrict(Set::new(|p: DagPosition| self.keeps(gc_depth, p))),
            certificate_index: self.certificate_index.remove_keys(
                Set::new(|d: Digest| self.drops_digest(gc_depth, d)),
            ),
            digest_index: self.digest_index.remove_keys(
                Set::new(
                    |d: Digest| self.drops_digest(gc_depth, d) || self.drops_id(gc_depth, d),
                ),
            ),
            ..self
        }
    }

    /// The state with another status at a position.
    pub open spec fn with_status(self, p: DagPosition, status: CommitStatus) -> StateView {
        if self.dag.contains_key(p) {
            StateView { dag: self.dag.insert(p, EntryView { status, ..self.dag[p] }), ..self }
        } else {
            self
        }
    }

    /// The state with the rounds of the slow path changed.
    pub open spec fn with_pending(self, rounds: Set<Round>) -> StateView {
        StateView { slow_path_pending_rounds: rounds, ..self }
    }
}

impl State {
    /// The state before any certificate.
    fn empty() -> (r: Self)
        ensures
            r@ == StateView::empty(),
            r@.well_formed(),
    {
        let r = State {
            last_committed_certificate_round: 0,
            last_committed_leader_round: 0,
            last_committed: KeyMap::new(),
            dag: KeyMap::new(),
            certificate_index: KeyMap::new(),
            digest_index: KeyMap::new(),
            slow_path_pending_rounds: KeySet::new(),
        };
        assert(r@ =~= StateView::empty());
        r
    }

    /// Adds a certificate, in place of what stood at its position.
    pub fn insert(&mut self, certificate: Certificate)
        requires
            old(self)@.well_formed(),
        ensures
            final(self)@ == old(self)@.inserted(certificate@),
            final(self)@.well_formed(),
    {
        let ghost before = self@;
        let ghost c = certificate@;
        let position = DagPosition { round: certificate.round(), author: certificate.origin() };
        let digest: Digest = certificate.digest();
        let id: Digest = certificate.header.id;
        let entry = DagEntry { digest, certificate, status: CommitStatus::Pending };
        let ghost held = self.dag@;
        let replaced: Option<DagEntry> = self.dag.insert(position, entry);
        assert(dag_view(self.dag@) =~= before.dag.insert(position, c.entry(CommitStatus::Pending)));
        match replaced {
            Some(old_entry) => {
                assert(old_entry@ == before.dag[position]);
                self.remove_indexes(&old_entry.digest, &old_entry.certificate.header.id);
            },
            None => {},
        }
        let _ = self.certificate_index.insert(digest, position);
        let _ = self.digest_index.insert(digest, position);
        let _ = self.digest_index.insert(id, position);
        proof {
            assert(self@ =~= before.inserted(c));
            lemma_inserted_well_formed(before, c);
        }
    }

    /// The state of a node that has the genesis certificates and nothing else.
    pub fn new(genesis: Vec<Certificate>) -> (r: Self)
        ensures
            r@ == StateView::empty().inserted_all(certificate_views(genesis@)).started(),
            r@.well_formed(),
    {
        let mut state = State::empty();
        let mut i: usize = 0;
        while i < genesis.len()
            invariant
                i <= genesis@.len(),
                state@ == StateView::empty().inserted_all(
                    certificate_views(genesis@).take(i as int),
                ),
                state@.well_formed(),
                state@.last_committed_certificate_round == 0,
            decreases genesis@.len() - i,
        {
            state.insert(genesis[i].clone());
            i = i + 1;
            proof {
                let views = certificate_views(genesis@);
                assert(views.take(i as int).drop_last() =~= views.take(i - 1));
            }
        }
        assert(certificate_views(genesis@).take(i as int) =~= certificate_views(genesis@));
        let ghost before = state@;
        let authors: Vec<PublicKey> = state.authors(0);
        let mut last_committed: KeyMap<PublicKey, Round> = KeyMap::new();
        let mut j: usize = 0;
        while j < authors.len()
            invariant
                j <= authors@.len(),
                forall|a: PublicKey| #[trigger]
                    last_committed@.contains_key(a) == authors@.take(j as int).contains(a),
                forall|a: PublicKey| #[trigger]
                    last_committed@.contains_key(a) ==> last_committed@[a] == 0,
            decreases authors@.len() - j,
        {
            proof {
                assert(authors@.take(j + 1) =~= authors@.take(j as int).push(authors@[j as int]));
                assert forall|a: PublicKey| authors@.take(j + 1).contains(a) == (authors@.take(
                    j as int,
                ).contains(a) || a == authors@[j as int]) by {
                    lemma_push_contains(authors@.take(j as int), authors@[j as int], a);
                }
            }
            let _ = last_committed.insert(authors[j], 0);
            j = j + 1;
        }
        state.last_committed = last_committed;
        proof {
            assert(authors@.take(j as int) =~= authors@);
            assert forall|a: PublicKey| before.authors(0).contains(a) == authors@.contains(a) by {
                assert(authors@.to_set().contains(a) == authors@.contains(a));
            }
            assert(state@.last_committed =~= before.started().last_committed);
            assert(state@ =~= before.started());
        }
        state
    }

    /// The authorities with a certificate in a round, in increasing order.
    pub fn authors(&self, round: Round) -> (r: Vec<PublicKey>)
        ensures
            r@ == ordered(self@.authors(round)),
            r@.to_set() == self@.authors(round),
            r@.no_duplicates(),
    {
        proof {
            use_type_invariant(&self.dag);
            self.dag.lemma_entries();
        }
        let mut r: Vec<PublicKey> = Vec::new();
        let n: usize = self.dag.len();
        let mut i: usize = 0;
        while i < n
            invariant
                i <= n,
                n == self.dag.keys().len(),
                self.dag.well_formed(),
                strictly_sorted(r@),
                forall|a: PublicKey|
                    r@.contains(a) == self.dag.keys().take(i as int).contains(
                        #[trigger] position(round, a),
                    ),
            decreases n - i,
        {
            let p: DagPosition = self.dag.key_at(i);
            let ghost held = r@;
            let ghost keys = self.dag.keys();
            proof {
                assert(keys.take(i + 1) =~= keys.take(i as int).push(p));
                assert forall|q: DagPosition| keys.take(i + 1).contains(q) == (keys.take(
                    i as int,
                ).contains(q) || q == p) by {
                    lemma_push_contains(keys.take(i as int), p, q);
                }
            }
            if p.round == round {
                proof {
                    assert forall|j: int| 0 <= j < held.len() implies (#[trigger] held[j]).below(
                        p.author,
                    ) by {
                        let q = position(round, held[j]);
                        assert(held.contains(held[j]));
                        assert(keys.take(i as int).contains(q));
                        let k = choose|k: int| 0 <= k < i && keys.take(i as int)[k] == q;
                        assert(keys[k].below(keys[i as int]));
                    }
                }
                r.push(p.author);
                proof {
                    assert forall|a: PublicKey| r@.contains(a) == keys.take(i + 1).contains(
                        #[trigger] position(round, a),
                    ) by {
                        lemma_push_contains(held, p.author, a);
                    }
                }
            }
            i = i + 1;
        }
        proof {
            assert(self.dag.keys().take(n as int) =~= self.dag.keys());
            assert(r@.to_set() =~= self@.authors(round)) by {
                assert forall|a: PublicKey| r@.to_set().contains(a) == self@.authors(
                    round,
                ).contains(a) by {
                    assert(self.dag.keys().to_set().contains(position(round, a))
                        == self.dag.keys().contains(position(round, a)));
                    assert(r@.to_set().contains(a) == r@.contains(a));
                }
            }
            lemma_ordered(r@);
            crate::keys::lemma_sorted_distinct(r@);
        }
        r
    }

    /// The entry at a position.
    pub fn entry(&self, round: Round, author: &PublicKey) -> (r: Option<&DagEntry>)
        ensures
            r is Some == self@.dag.contains_key(position(round, *author)),
            r matches Some(entry) ==> entry@ == self@.dag[position(round, *author)],
    {
        self.dag.get(&DagPosition { round, author: *author })
    }

    /// Removes a digest and a header id from the indexes.
    fn remove_indexes(&mut self, certificate_digest: &Digest, header_id: &Digest)
        ensures
            final(self)@ == old(self)@.without_indexes(*certificate_digest, *header_id),
    {
        let _ = self.certificate_index.remove(certificate_digest);
        let _ = self.digest_index.remove(certificate_digest);
        let _ = self.digest_index.remove(header_id);
        assert(self@ =~= old(self)@.without_indexes(*certificate_digest, *header_id));
    }

    /// The certificate with a digest.
    pub fn find_certificate(&self, certificate_digest: &Digest) -> (r: Option<&DagEntry>)
        ensures
            match r {
                Some(entry) => self@.lookup(*certificate_digest) == Some(entry@),
                None => self@.lookup(*certificate_digest) is None,
            },
    {
        match self.certificate_index.get(certificate_digest) {
            Some(position) => self.dag.get(position),
            None => None,
        }
    }

    /// Where the certificate with a digest or a header id stands.
    pub fn find_digest(&self, digest: &Digest) -> (r: Option<DagPosition>)
        ensures
            r is Some == self@.digest_index.contains_key(*digest),
            r matches Some(p) ==> p == self@.digest_index[*digest],
    {
        match self.digest_index.get(digest) {
            Some(position) => Some(*position),
            None => None,
        }
    }

    /// Records that a certificate has been committed, without cleaning the DAG yet.
    pub fn record_commit(&mut self, certificate: &Certificate)
        requires
            old(self)@.well_formed(),
        ensures
            final(self)@ == old(self)@.recorded(certificate@),
            final(self)@.well_formed(),
    {
        let ghost before = self@;
        let origin: PublicKey = certificate.origin();
        let round: Round = certificate.round();
        let recorded: Round = match self.last_committed.get(&origin) {
            Some(r) => {
                if *r < round {
                    round
                } else {
                    *r
                }
            },
            None => round,
        };
        let _ = self.last_committed.insert(origin, recorded);
        if self.last_committed_certificate_round < round {
            self.last_committed_certificate_round = round;
        }
        proof {
            assert(self@ =~= before.recorded(certificate@));
            lemma_recorded_well_formed(before, certificate@);
        }
    }

    /// Drops what is garbage collected by the rounds recorded as committed.
    pub fn cleanup_committed_history(&mut self, gc_depth: Round)
        requires
            old(self)@.well_formed(),
        ensures
            final(self)@ == old(self)@.cleaned(gc_depth),
            final(self)@.well_formed(),
    {
        let ghost before = self@;
        let removed: Vec<DagPosition> = self.collected(gc_depth);
        let mut i: usize = 0;
        proof {
            assert(before.dag.remove_keys(removed@.take(0).to_set()) =~= before.dag);
            assert(before.certificate_index.remove_keys(
                dropped_digests(before, removed@.take(0)),
            ) =~= before.certificate_index);
            assert(before.digest_index.remove_keys(
                dropped_digests(before, removed@.take(0)).union(
                    dropped_ids(before, removed@.take(0)),
                ),
            ) =~= before.digest_index);
            assert(self@ =~= without_positions(before, removed@.take(0)));
            assert forall|j: int| 0 <= j < removed@.len() implies before.dag.contains_key(
                #[trigger] removed@[j],
            ) by {
                assert(removed@.contains(removed@[j]));
            }
        }
        while i < removed.len()
            invariant
                i <= removed@.len(),
                removed@.no_duplicates(),
                forall|j: int|
                    0 <= j < removed@.len() ==> before.dag.contains_key(#[trigger] removed@[j]),
                self@ == without_positions(before, removed@.take(i as int)),
            decreases removed@.len() - i,
        {
            let ghost done = removed@.take(i as int);
            let ghost next = removed@.take(i + 1);
            let p: DagPosition = removed[i];
            proof {
                assert(next =~= done.push(p));
                done.lemma_push_to_set_commute(p);
                assert(!done.contains(p)) by {
                    if done.contains(p) {
                        let j = choose|j: int| 0 <= j < done.len() && done[j] == p;
                        assert(removed@[j] == removed@[i as int]);
                    }
                }
                assert(!done.to_set().contains(p));
                assert(self@.dag.contains_key(p));
            }
            let ghost held = self@;
            match self.dag.remove(&p) {
                Some(entry) => {
                    proof {
                        assert(held.dag.contains_key(p));
                        assert(held.dag[p] == before.dag[p]);
                        assert(entry@ == held.dag[p]);
                        assert(dag_view(self.dag@) =~= held.dag.remove(p));
                    }
                    self.remove_indexes(&entry.digest, &entry.certificate.header.id);
                    proof {
                        lemma_dropped_push(before, done, p);
                        assert(self@.dag =~= without_positions(before, next).dag);
                        assert(self@.certificate_index =~= without_positions(
                            before,
                            next,
                        ).certificate_index);
                        assert(self@.digest_index =~= without_positions(before, next).digest_index);
                        assert(self@ =~= without_positions(before, next));
                    }
                },
                None => {},
            }
            i = i + 1;
        }
        proof {
            assert(removed@.take(i as int) =~= removed@);
            lemma_cleaned(before, gc_depth, removed@);
            lemma_cleaned_well_formed(before, gc_depth);
        }
    }

    /// The positions that are garbage collected.
    fn collected(&self, gc_depth: Round) -> (r: Vec<DagPosition>)
        ensures
            r@.no_duplicates(),
            forall|p: DagPosition|
                #![trigger r@.contains(p)]
                r@.contains(p) == (self@.dag.contains_key(p) && !self@.keeps(gc_depth, p)),
    {
        proof {
            use_type_invariant(&self.dag);
            self.dag.lemma_entries();
        }
        let oldest: Round = self.last_committed_certificate_round.saturating_sub(gc_depth);
        let ghost keys = self.dag.keys();
        let mut r: Vec<DagPosition> = Vec::new();
        let n: usize = self.dag.len();
        let mut i: usize = 0;
        while i < n
            invariant
                i <= n,
                n == keys.len(),
                keys == self.dag.keys(),
                keys.no_duplicates(),
                oldest == if self.last_committed_certificate_round < gc_depth {
                    0
                } else {
                    self.last_committed_certificate_round - gc_depth
                },
                r@.no_duplicates(),
                forall|p: DagPosition|
                    #![trigger r@.contains(p)]
                    r@.contains(p) == (keys.take(i as int).contains(p) && !self@.keeps(
                        gc_depth,
                        p,
                    )),
            decreases n - i,
        {
            let p: DagPosition = self.dag.key_at(i);
            let ghost held = r@;
            let last: Round = match self.last_committed.get(&p.author) {
                Some(last) => *last,
                None => 0,
            };
            proof {
                assert(keys.take(i + 1) =~= keys.take(i as int).push(p));
                assert(!keys.take(i as int).contains(p)) by {
                    if keys.take(i as int).contains(p) {
                        let j = choose|j: int| 0 <= j < i && keys.take(i as int)[j] == p;
                        assert(keys[j] == keys[i as int]);
                    }
                }
                assert(!held.contains(p));
            }
            if p.round < oldest || p.round < last {
                r.push(p);
            }
            proof {
                assert forall|q: DagPosition|
                    #![trigger r@.contains(q)]
                    r@.contains(q) == (keys.take(i + 1).contains(q) && !self@.keeps(
                        gc_depth,
                        q,
                    )) by {
                    lemma_push_contains(keys.take(i as int), p, q);
                    lemma_push_contains(held, p, q);
                    assert(held.contains(q) == (keys.take(i as int).contains(q) && !self@.keeps(
                        gc_depth,
                        q,
                    )));
                }
            }
            i = i + 1;
        }
        proof {
            assert(keys.take(n as int) =~= keys);
            assert forall|p: DagPosition|
                #![trigger r@.contains(p)]
                r@.contains(p) == (self@.dag.contains_key(p) && !self@.keeps(gc_depth, p)) by {
                assert(keys.to_set().contains(p) == keys.contains(p));
            }
        }
        r
    }

    /// Notes the round of a leader whose commit path was accepted.
    pub fn update_last_committed_leader(&mut self, leader_round: Round)
        ensures
            final(self)@ == (StateView {
                last_committed_leader_round: later(
                    old(self)@.last_committed_leader_round,
                    leader_round,
                ),
                ..old(self)@
            }),
            old(self)@.well_formed() ==> final(self)@.well_formed(),
    {
        if self.last_committed_leader_round < leader_round {
            self.last_committed_leader_round = leader_round;
        }
    }

    /// Sets the status of a certificate, if it is in the DAG.
    pub fn set_commit_status(&mut self, certificate: &Certificate, status: CommitStatus)
        ensures
            final(self)@ == old(self)@.with_status(certificate@.position(), status),
            old(self)@.well_formed() ==> final(self)@.well_formed(),
    {
        let p = DagPosition { round: certificate.round(), author: certificate.origin() };
        proof {
            if self@.well_formed() {
                lemma_status_well_formed(self@, p, status);
            }
        }
        self.set_status(p, status)
    }

    /// Sets the status at a position, if a certificate stands there.
    pub(crate) fn set_status(&mut self, p: DagPosition, status: CommitStatus)
        ensures
            final(self)@ == old(self)@.with_status(p, status),
    {
        let ghost before = self@;
        match self.dag.remove(&p) {
            Some(entry) => {
                let mut entry: DagEntry = entry;
                entry.status = status;
                let _ = self.dag.insert(p, entry);
                assert(dag_view(self.dag@) =~= before.with_status(p, status).dag);
                assert(self@ =~= before.with_status(p, status));
            },
            None => {
                assert(dag_view(self.dag@) =~= before.dag);
                assert(self@ =~= before);
            },
        }
    }

    /// Leaves a round to the slow path.
    pub fn add_pending(&mut self, round: Round)
        ensures
            final(self)@ == old(self)@.with_pending(
                old(self)@.slow_path_pending_rounds.insert(round),
            ),
            old(self)@.well_formed() ==> final(self)@.well_formed(),
    {
        let _ = self.slow_path_pending_rounds.insert(round);
    }

    /// Takes a round from the slow path.
    pub fn remove_pending(&mut self, round: Round)
        ensures
            final(self)@ == old(self)@.with_pending(
                old(self)@.slow_path_pending_rounds.remove(round),
            ),
            old(self)@.well_formed() ==> final(self)@.well_formed(),
    {
        let _ = self.slow_path_pending_rounds.remove(&round);
    }

    /// The rounds that are left to the slow path, in increasing order.
    pub fn pending_rounds(&self) -> (r: Vec<Round>)
        ensures
            r@ == ordered(self@.slow_path_pending_rounds),
            r@.to_set() == self@.slow_path_pending_rounds,
    {
        self.slow_path_pending_rounds.to_vec()
    }

    pub fn last_committed_certificate_round(&self) -> (r: Round)
        ensures
            r == self@.last_committed_certificate_round,
    {
        self.last_committed_certificate_round
    }

    pub fn last_committed_leader_round(&self) -> (r: Round)
        ensures
            r == self@.last_committed_leader_round,
    {
        self.last_committed_leader_round
    }

    /// Says whether a certificate of this authority and of this round or a later one has been
    /// committed.
    pub fn is_committed(&self, certificate: &Certificate) -> (r: bool)
        ensures
            r == self@.is_committed(certificate@),
    {
        match self.last_committed.get(&certificate.origin()) {
            Some(last) => *last >= certificate.round(),
            None => false,
        }
    }
}

/// The digests of the certificates at some positions.
spec fn dropped_digests(s: StateView, positions: Seq<DagPosition>) -> Set<Digest> {
    positions.map_values(|p: DagPosition| s.dag[p].digest).to_set()
}

/// The header ids of the certificates at some positions.
spec fn dropped_ids(s: StateView, positions: Seq<DagPosition>) -> Set<Digest> {
    positions.map_values(|p: DagPosition| s.dag[p].certificate.header.id).to_set()
}

/// The state without the certificates at some positions.
spec fn without_positions(s: StateView, positions: Seq<DagPosition>) -> StateView {
    StateView {
        dag: s.dag.remove_keys(positions.to_set()),
        certificate_index: s.certificate_index.remove_keys(dropped_digests(s, positions)),
        digest_index: s.digest_index.remove_keys(
            dropped_digests(s, positions).union(dropped_ids(s, positions)),
        ),
        ..s
    }
}

proof fn lemma_dropped_push(s: StateView, positions: Seq<DagPosition>, p: DagPosition)
    ensures
        dropped_digests(s, positions.push(p)) == dropped_digests(s, positions).insert(
            s.dag[p].digest,
        ),
        dropped_ids(s, positions.push(p)) == dropped_ids(s, positions).insert(
            s.dag[p].certificate.header.id,
        ),
{
    let f = |q: DagPosition| s.dag[q].digest;
    let g = |q: DagPosition| s.dag[q].certificate.header.id;
    assert(positions.push(p).map_values(f) =~= positions.map_values(f).push(f(p)));
    assert(positions.push(p).map_values(g) =~= positions.map_values(g).push(g(p)));
    positions.map_values(f).lemma_push_to_set_commute(f(p));
    positions.map_values(g).lemma_push_to_set_commute(g(p));
}

/// Removing the garbage collected positions one by one cleans the state.
proof fn lemma_cleaned(s: StateView, gc_depth: Round, positions: Seq<DagPosition>)
    requires
        forall|p: DagPosition|
            #![trigger positions.contains(p)]
            positions.contains(p) == (s.dag.contains_key(p) && !s.keeps(gc_depth, p)),
    ensures
        without_positions(s, positions) == s.cleaned(gc_depth),
{
    let f = |q: DagPosition| s.dag[q].digest;
    let g = |q: DagPosition| s.dag[q].certificate.header.id;
    let t = without_positions(s, positions);
    let u = s.cleaned(gc_depth);
    assert forall|d: Digest| dropped_digests(s, positions).contains(d) == s.drops_digest(
        gc_depth,
        d,
    ) by {
        let mapped = positions.map_values(f);
        if mapped.contains(d) {
            let i = choose|i: int| 0 <= i < mapped.len() && mapped[i] == d;
            assert(positions.contains(positions[i]));
            assert(s.dag.contains_key(positions[i]));
        }
        if s.drops_digest(gc_depth, d) {
            let p = choose|p: DagPosition| #[trigger]
                s.dag.contains_key(p) && !s.keeps(gc_depth, p) && s.dag[p].digest == d;
            assert(positions.contains(p));
            let i = choose|i: int| 0 <= i < positions.len() && positions[i] == p;
            assert(mapped[i] == d);
        }
    }
    assert forall|d: Digest| dropped_ids(s, positions).contains(d) == s.drops_id(gc_depth, d) by {
        let mapped = positions.map_values(g);
        if mapped.contains(d) {
            let i = choose|i: int| 0 <= i < mapped.len() && mapped[i] == d;
            assert(positions.contains(positions[i]));
            assert(s.dag.contains_key(positions[i]));
        }
        if s.drops_id(gc_depth, d) {
            let p = choose|p: DagPosition| #[trigger]
                s.dag.contains_key(p) && !s.keeps(gc_depth, p)
                    && s.dag[p].certificate.header.id == d;
            assert(positions.contains(p));
            let i = choose|i: int| 0 <= i < positions.len() && positions[i] == p;
            assert(mapped[i] == d);
        }
    }
    assert forall|p: DagPosition| t.dag.contains_key(p) == u.dag.contains_key(p) by {
        assert(positions.to_set().contains(p) == positions.contains(p));
    }
    assert(t.dag =~= u.dag);
    assert(t.certificate_index =~= u.certificate_index);
    assert(t.digest_index =~= u.digest_index);
}

/// Cleaning keeps a state well formed.
pub(crate) proof fn lemma_cleaned_well_formed(s: StateView, gc_depth: Round)
    requires
        s.well_formed(),
    ensures
        s.cleaned(gc_depth).well_formed(),
{
    let t = s.cleaned(gc_depth);
    vstd::set_lib::lemma_set_subset_finite(s.certificate_index.dom(), t.certificate_index.dom());
    assert forall|p: DagPosition| #[trigger] t.dag.contains_key(p) implies t.dag[p] == s.dag[p]
        && s.dag.contains_key(p) by {
    }
    assert forall|d: Digest| #[trigger] t.certificate_index.contains_key(d) implies t.dag.contains_key(
        t.certificate_index[d],
    ) && t.dag[t.certificate_index[d]].digest == d by {
        assert(s.certificate_index.contains_key(d));
        assert(!s.drops_digest(gc_depth, d));
        assert(s.dag.contains_key(s.certificate_index[d]));
    }
    assert forall|d: Digest| #[trigger] t.digest_index.contains_key(d) implies t.dag.contains_key(
        t.digest_index[d],
    ) && (t.dag[t.digest_index[d]].digest == d || t.dag[t.digest_index[d]].certificate.header.id
        == d) by {
        assert(s.digest_index.contains_key(d));
        assert(!s.drops_digest(gc_depth, d));
        assert(!s.drops_id(gc_depth, d));
        assert(s.dag.contains_key(s.digest_index[d]));
    }
}

/// Recording a commit keeps a state well formed.
pub(crate) proof fn lemma_recorded_well_formed(s: StateView, c: CertificateView)
    requires
        s.well_formed(),
    ensures
        s.recorded(c).well_formed(),
{
    let t = s.recorded(c);
    let a = c.origin();
    assert(t.last_committed.contains_key(a));
    if s.last_committed.contains_key(a) {
        assert(s.last_committed[a] <= s.last_committed_certificate_round);
    }
    if s.last_committed_certificate_round >= c.round() && s.last_committed_certificate_round != 0 {
        let b = choose|b: PublicKey| #[trigger]
            s.last_committed.contains_key(b) && s.last_committed[b]
                == s.last_committed_certificate_round;
        assert(t.last_committed.contains_key(b));
        assert(t.last_committed[b] == t.last_committed_certificate_round);
    }
    assert(is_maximum(t.last_committed_certificate_round, t.last_committed));
}

/// Changing a status keeps a state well formed.
pub(crate) proof fn lemma_status_well_formed(s: StateView, p: DagPosition, status: CommitStatus)
    requires
        s.well_formed(),
    ensures
        s.with_status(p, status).well_formed(),
{
    let t = s.with_status(p, status);
    assert forall|q: DagPosition| #[trigger] t.dag.contains_key(q) implies s.dag.contains_key(q)
        && t.dag[q].certificate == s.dag[q].certificate && t.dag[q].digest == s.dag[q].digest by {
    }
    assert forall|q: DagPosition| s.dag.contains_key(q) implies #[trigger] t.dag.contains_key(q) by {
    }
}

/// Inserting a certificate keeps a state well formed.
pub(crate) proof fn lemma_inserted_well_formed(s: StateView, c: CertificateView)
    requires
        s.well_formed(),
    ensures
        s.inserted(c).well_formed(),
{
    let t = s.inserted(c);
    assert(t.certificate_index.dom().finite()) by {
        let p = c.position();
        if s.dag.contains_key(p) {
            assert(t.certificate_index.dom() =~= s.certificate_index.dom().remove(
                s.dag[p].digest,
            ).insert(c.digest()));
        } else {
            assert(t.certificate_index.dom() =~= s.certificate_index.dom().insert(c.digest()));
        }
    }
    assert forall|d: Digest| #[trigger] t.certificate_index.contains_key(d) implies t.dag.contains_key(
        t.certificate_index[d],
    ) && t.dag[t.certificate_index[d]].digest == d by {
        if d != c.digest() {
            assert(s.certificate_index.contains_key(d));
        }
    }
    assert forall|d: Digest| #[trigger] t.digest_index.contains_key(d) implies t.dag.contains_key(
        t.digest_index[d],
    ) && (t.dag[t.digest_index[d]].digest == d || t.dag[t.digest_index[d]].certificate.header.id
        == d) by {
        if d != c.digest() && d != c.header.id {
            assert(s.digest_index.contains_key(d));
        }
    }
}

} // verus!
