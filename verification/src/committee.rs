//! The committee: who may vote, with what stake, and the thresholds and lengths it has agreed on.
use vstd::prelude::*;

use crate::collections::{KeyMap, KeySet};
use crate::crypto::PublicKey;
use crate::keys::ordered;

verus! {

/// A round of the DAG.
pub type Round = u64;

/// The voting power of one authority.
pub type Stake = u32;

/// A sum of stakes. It is wide enough for the stakes of any list that fits in memory.
pub type Weight = u128;

/// A worker of an authority.
pub type WorkerId = u32;

/// One member of the committee.
pub struct Authority {
    pub stake: Stake,
    pub workers: KeySet<WorkerId>,
}

/// The members of the committee with the thresholds and lengths that hold for all of them.
pub struct Committee {
    pub authorities: KeyMap<PublicKey, Authority>,
    /// The stake that certifies a header and decides the fast path.
    pub quorum_threshold: Stake,
    /// The stake that at least one honest authority must be part of.
    pub validity_threshold: Stake,
    /// The number of rounds of a solid step.
    pub solid_step_length: Round,
    /// The number of rounds of a solid wave.
    pub solid_wave_length: Round,
}

/// What the committee asks of the parents of a header of one round.
#[derive(Clone, Copy, Debug, PartialEq, Eq, Structural)]
pub struct RoundRule {
    /// The round ends a solid step, so that the merged vertices are counted instead of the stake.
    pub is_solid_step: bool,
    /// How many vertices, or how much stake, the parents must bring.
    pub processing_threshold: Stake,
}

impl Committee {
    /// The members' keys.
    pub open spec fn members(&self) -> Set<PublicKey> {
        self.authorities@.dom()
    }

    /// The stake of `name`, which is nothing for one who is no member.
    pub open spec fn stake_of(&self, name: PublicKey) -> Stake {
        if self.authorities@.contains_key(name) {
            self.authorities@[name].stake
        } else {
            0
        }
    }

    /// `name` is a member and runs the worker `id`.
    pub open spec fn has_worker(&self, name: PublicKey, id: WorkerId) -> bool {
        self.authorities@.contains_key(name) && self.authorities@[name].workers@.contains(id)
    }

    /// Where `name` stands among the members in increasing order, which is its node number.
    pub open spec fn node_of(&self, name: PublicKey) -> Option<usize> {
        if self.members().contains(name) {
            Some(ordered(self.members()).index_of(name) as usize)
        } else {
            None
        }
    }

    /// The stake of those of a list of authorities for whom `counts` holds.
    pub open spec fn weight_where(
        &self,
        names: Seq<PublicKey>,
        counts: spec_fn(PublicKey) -> bool,
    ) -> nat
        decreases names.len(),
    {
        if names.len() == 0 {
            0
        } else {
            self.weight_where(names.drop_last(), counts) + if counts(names.last()) {
                self.stake_of(names.last()) as nat
            } else {
                0
            }
        }
    }

    /// The stake of a list of authorities.
    pub open spec fn weight(&self, names: Seq<PublicKey>) -> nat {
        self.weight_where(names, |name: PublicKey| true)
    }

    /// No sum of stakes exceeds the greatest stake for each authority.
    pub proof fn lemma_weight_bound(&self, names: Seq<PublicKey>, counts: spec_fn(PublicKey) -> bool)
        ensures
            self.weight_where(names, counts) <= names.len() * u32::MAX,
        decreases names.len(),
    {
        if names.len() > 0 {
            self.lemma_weight_bound(names.drop_last(), counts);
            assert(names.len() * u32::MAX == (names.len() - 1) * u32::MAX + u32::MAX)
                by (nonlinear_arith);
        }
    }

    /// Part of a list has no more stake than the whole list.
    pub proof fn lemma_weight_part(&self, names: Seq<PublicKey>, counts: spec_fn(PublicKey) -> bool)
        ensures
            self.weight_where(names, counts) <= self.weight(names),
        decreases names.len(),
    {
        if names.len() > 0 {
            self.lemma_weight_part(names.drop_last(), counts);
        }
    }

    /// Adds up the stake of a list of authorities.
    pub fn weigh(&self, names: &Vec<PublicKey>) -> (r: Weight)
        ensures
            r == self.weight(names@),
    {
        let mut weight: Weight = 0;
        let mut i: usize = 0;
        while i < names.len()
            invariant
                i <= names@.len(),
                weight == self.weight(names@.take(i as int)),
            decreases names@.len() - i,
        {
            proof {
                assert(names@.take(i + 1).drop_last() =~= names@.take(i as int));
                lemma_weight_fits(self, names@.take(i + 1), |name: PublicKey| true);
            }
            weight = weight + self.stake(&names[i]) as Weight;
            i = i + 1;
        }
        assert(names@.take(i as int) =~= names@);
        weight
    }

    pub fn stake(&self, name: &PublicKey) -> (r: Stake)
        ensures
            r == self.stake_of(*name),
    {
        match self.authorities.get(name) {
            Some(authority) => authority.stake,
            None => 0,
        }
    }

    /// Says whether `name` runs the worker `id`.
    pub fn worker(&self, name: &PublicKey, id: &WorkerId) -> (r: bool)
        ensures
            r == self.has_worker(*name, *id),
    {
        match self.authorities.get(name) {
            Some(authority) => authority.workers.contains(id),
            None => false,
        }
    }

    pub fn quorum_threshold(&self) -> (r: Stake)
        ensures
            r == self.quorum_threshold,
    {
        self.quorum_threshold
    }

    pub fn validity_threshold(&self) -> (r: Stake)
        ensures
            r == self.validity_threshold,
    {
        self.validity_threshold
    }

    pub fn solid_step_length(&self) -> (r: Round)
        ensures
            r == self.solid_step_length,
    {
        self.solid_step_length
    }

    pub fn solid_wave_length(&self) -> (r: Round)
        ensures
            r == self.solid_wave_length,
    {
        self.solid_wave_length
    }

    /// The members' keys, in increasing order.
    pub fn keys(&self) -> (r: Vec<PublicKey>)
        ensures
            r@ == ordered(self.members()),
            r@.to_set() == self.members(),
            r@.no_duplicates(),
    {
        self.authorities.key_list()
    }

    /// Where `name` stands among the members in increasing order, which is its node number.
    pub fn node_index(&self, name: &PublicKey) -> (r: Option<usize>)
        ensures
            r == self.node_of(*name),
    {
        proof {
            use_type_invariant(&self.authorities);
            self.authorities.lemma_entries();
        }
        let r: Option<usize> = self.authorities.position(name);
        proof {
            match r {
                Some(i) => {
                    let keys = ordered(self.members());
                    assert(keys[i as int] == *name);
                    assert(keys.index_of(*name) == i);
                },
                None => {},
            }
        }
        r
    }
}

/// The stake of a list that fits in memory fits in a weight.
pub(crate) proof fn lemma_weight_fits(
    committee: &Committee,
    names: Seq<PublicKey>,
    counts: spec_fn(PublicKey) -> bool,
)
    requires
        names.len() <= usize::MAX,
    ensures
        committee.weight_where(names, counts) <= Weight::MAX,
{
    committee.lemma_weight_bound(names, counts);
    assert(names.len() * u32::MAX <= usize::MAX * u32::MAX) by (nonlinear_arith)
        requires
            names.len() <= usize::MAX,
    ;
    assert(usize::MAX * u32::MAX <= u128::MAX) by (nonlinear_arith)
        requires
            usize::MAX <= u64::MAX,
    ;
}

} // verus!
