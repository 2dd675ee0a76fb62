//! Who leads which round, and which leaders are committed with one.
use vstd::prelude::*;

use crate::committee::Round;
use crate::consensus::Consensus;
use crate::crypto::{Digest, PublicKey};
use crate::dag::{CommitStatus, EntryView, StateView};
use crate::decisions::{at, turn};
use crate::keys::lemma_ordered_finite;
use crate::messages::CertificateView;
use crate::paths::place;

verus! {

/// What taking in a certificate does to a state: the certificate stands at its place, undecided, in
/// place of what stood there, and is found by its digest and by its header id; what stood there is
/// found no more, and all else is as before.
pub proof fn lemma_insert(s: StateView, c: CertificateView)
    ensures
        ({
            let t = s.inserted(c);
            let p = place(c);
            let gone = s.dag[p];
            let replaces = s.dag.contains_key(p);
            &&& t == (StateView {
                dag: t.dag,
                certificate_index: t.certificate_index,
                digest_index: t.digest_index,
                ..s
            })
            &&& t.dag == s.dag.insert(
                p,
                EntryView { digest: c.digest(), certificate: c, status: CommitStatus::Pending },
            )
            &&& t.certificate_index.contains_key(c.digest())
            &&& t.certificate_index[c.digest()] == p
            &&& forall|d: Digest|
                d != c.digest() ==> #[trigger] t.certificate_index.contains_key(d) == (
                s.certificate_index.contains_key(d) && !(replaces && d == gone.digest)) && (
                t.certificate_index.contains_key(d) ==> t.certificate_index[d]
                    == s.certificate_index[d])
            &&& t.digest_index.contains_key(c.digest()) && t.digest_index[c.digest()] == p
            &&& t.digest_index.contains_key(c.header.id) && t.digest_index[c.header.id] == p
            &&& forall|d: Digest|
                d != c.digest() && d != c.header.id ==> #[trigger] t.digest_index.contains_key(d)
                    == (s.digest_index.contains_key(d) && !(replaces && (d == gone.digest || d
                    == gone.certificate.header.id))) && (t.digest_index.contains_key(d)
                    ==> t.digest_index[d] == s.digest_index[d])
        }),
{
}

/// The leader of a round is looked up at the place of the member whose turn it is.
pub proof fn lemma_leader(consensus: Consensus, s: StateView, round: Round)
    ensures
        ({
            let p = at(round, turn(&consensus, round as int));
            match consensus.leader_entry(s, round) {
                Some(entry) => s.dag.contains_key(p) && entry == s.dag[p],
                None => !s.dag.contains_key(p),
            }
        }),
{
}

/// The members take turns: from any round on each of them leads one of as many rounds as there are
/// members, and after these the turns are the same again.
pub proof fn lemma_turns(consensus: Consensus, round: Round, name: PublicKey) -> (r: int)
    requires
        consensus.committee().authorities@.dom().finite(),
        consensus.committee().authorities@.contains_key(name),
    ensures
        ({
            let n = consensus.authorities().len();
            &&& round <= r < round + n
            &&& turn(&consensus, r) == name
            &&& turn(&consensus, r + n) == name
            &&& forall|q: int|
                round <= q < round + n && #[trigger] turn(&consensus, q) == name ==> q == r
        }),
{
    let members = consensus.authorities();
    let n = members.len() as int;
    lemma_ordered_finite(consensus.committee().authorities@.dom());
    crate::keys::lemma_sorted_distinct(members);
    assert(members.contains(name));
    let i = choose|i: int| 0 <= i < members.len() && members[i] == name;
    let base = round as int;
    let shift = (i - base) % n;
    let r = base + shift;
    vstd::arithmetic::div_mod::lemma_mod_bound(i - base, n);
    vstd::arithmetic::div_mod::lemma_add_mod_noop(base, i - base, n);
    vstd::arithmetic::div_mod::lemma_add_mod_noop(base, shift, n);
    vstd::arithmetic::div_mod::lemma_mod_twice(i - base, n);
    vstd::arithmetic::div_mod::lemma_small_mod(i as nat, n as nat);
    assert(r % n == i);
    vstd::arithmetic::div_mod::lemma_mod_add_multiples_vanish(r, n);
    assert((r + n) % n == (n + r) % n);
    assert forall|q: int| base <= q < base + n && #[trigger] turn(&consensus, q) == name implies q
        == r by {
        vstd::arithmetic::div_mod::lemma_mod_bound(q, n);
        assert(members[q % n] == members[i]);
        assert(q % n == i);
        vstd::arithmetic::div_mod::lemma_fundamental_div_mod(q, n);
        vstd::arithmetic::div_mod::lemma_fundamental_div_mod(r, n);
        let x = q / n;
        let y = r / n;
        assert(q - r == n * (x - y)) by (nonlinear_arith)
            requires
                q == n * x + i,
                r == n * y + i,
        ;
        assert(x == y) by (nonlinear_arith)
            requires
                q - r == n * (x - y),
                -n < q - r < n,
                n > 0,
        ;
    }
    r
}

/// A round at which a leader before one of round `top` is looked for: whole waves below the round
/// before it, and at least a wave beyond the last committed leader.
pub open spec fn is_stop(consensus: &Consensus, s: StateView, top: int, round: int) -> bool {
    let wave = consensus.committee().solid_wave_length;
    &&& wave > 0
    &&& s.last_committed_leader_round + wave <= round < top
    &&& (top - 1 - round) % (wave as int) == 0
}

/// A certificate is that of the leader of its round.
pub open spec fn is_lead(consensus: &Consensus, s: StateView, c: CertificateView) -> bool {
    let p = at(c.header.round, turn(consensus, c.header.round as int));
    s.dag.contains_key(p) && s.dag[p].certificate == c
}

/// A leader is passed over: the last leader taken before it is not linked to it.
pub open spec fn is_passed(s: StateView, list: Seq<CertificateView>, c: CertificateView) -> bool {
    exists|k: int|
        0 <= k < list.len() && (#[trigger] list[k]).header.round > c.header.round && (k + 1
            < list.len() ==> list[k + 1].header.round < c.header.round) && !s.links(list[k], c)
}

/// Which leaders are committed with one: the list begins with it; each further one is the leader of a
/// stop, of an earlier round than the one before it and linked from it; and the leader of any stop is
/// in the list, unless the last leader taken before it is not linked to it.
pub proof fn lemma_leaders_taken(consensus: Consensus, s: StateView, leader: CertificateView)
    requires
        s.well_formed(),
    ensures
        ({
            let list = consensus.ordered_leaders(s, leader);
            let top = leader.header.round as int;
            &&& list.len() > 0 && list[0] == leader
            &&& forall|k: int|
                0 < k < list.len() ==> is_stop(
                    &consensus,
                    s,
                    top,
                    (#[trigger] list[k]).header.round as int,
                ) && is_lead(&consensus, s, list[k]) && list[k].header.round
                    < list[k - 1].header.round && s.links(list[k - 1], list[k])
            &&& forall|round: Round|
                #![trigger s.dag.contains_key(at(round, turn(&consensus, round as int)))]
                is_stop(&consensus, s, top, round as int) && s.dag.contains_key(
                    at(round, turn(&consensus, round as int)),
                ) ==> ({
                    let c = s.dag[at(round, turn(&consensus, round as int))].certificate;
                    list.contains(c) || is_passed(s, list, c)
                })
        }),
{
    let wave = consensus.committee().solid_wave_length;
    let start = (s.last_committed_leader_round + wave) as Round;
    let top = leader.header.round as int;
    let list = consensus.ordered_leaders(s, leader);
    if s.last_committed_leader_round + wave > Round::MAX {
        assert(list =~= seq![leader]);
    } else {
        assert(list =~= seq![leader] + consensus.leader_chain(s, leader, start, top - 1, wave));
    }
    if wave > 0 && s.last_committed_leader_round + wave <= Round::MAX {
        lemma_chain_taken(consensus, s, leader, start, top - 1, wave);
        assert forall|k: int| 0 < k < list.len() implies is_stop(
            &consensus,
            s,
            top,
            (#[trigger] list[k]).header.round as int,
        ) && is_lead(&consensus, s, list[k]) && list[k].header.round < list[k - 1].header.round
            && s.links(list[k - 1], list[k]) by {
            assert(is_taken(&consensus, s, list, k, start as int, top - 1, wave as int));
        }
    }
}

/// The entry `k` of a list is the leader of a stop, linked from the entry before it.
spec fn is_taken(
    consensus: &Consensus,
    s: StateView,
    list: Seq<CertificateView>,
    k: int,
    start: int,
    round: int,
    wave: int,
) -> bool {
    &&& start <= list[k].header.round <= round
    &&& (round - list[k].header.round) % wave == 0
    &&& is_lead(consensus, s, list[k])
    &&& list[k].header.round < list[k - 1].header.round
    &&& s.links(list[k - 1], list[k])
}

/// Which leaders a chain takes.
proof fn lemma_chain_taken(
    consensus: Consensus,
    s: StateView,
    current: CertificateView,
    start: Round,
    round: int,
    wave: Round,
)
    requires
        s.well_formed(),
        wave > 0,
        round < current.header.round,
    ensures
        ({
            let list = seq![current] + consensus.leader_chain(s, current, start, round, wave);
            &&& forall|k: int|
                0 < k < list.len() ==> #[trigger] is_taken(
                    &consensus,
                    s,
                    list,
                    k,
                    start as int,
                    round,
                    wave as int,
                )
            &&& forall|q: Round|
                #![trigger s.dag.contains_key(at(q, turn(&consensus, q as int)))]
                start <= q <= round && (round - q) % (wave as int) == 0 && s.dag.contains_key(
                    at(q, turn(&consensus, q as int)),
                ) ==> ({
                    let c = s.dag[at(q, turn(&consensus, q as int))].certificate;
                    list.contains(c) || is_passed(s, list, c)
                })
        }),
    decreases round - start + wave,
{
    let w = wave as int;
    let list = seq![current] + consensus.leader_chain(s, current, start, round, wave);
    if round >= start {
        let here = at(round as Round, turn(&consensus, round));
        let below = round - w;
        assert forall|q: int| #[trigger] ((round - q) % w) == 0 && q < round implies q <= below && (
        below - q) % w == 0 by {
            vstd::arithmetic::div_mod::lemma_fundamental_div_mod(round - q, w);
            let x = (round - q) / w;
            assert(x >= 1) by (nonlinear_arith)
                requires
                    round - q == w * x,
                    round - q > 0,
                    w > 0,
            ;
            assert(w * x >= w) by (nonlinear_arith)
                requires
                    x >= 1,
                    w > 0,
            ;
            vstd::arithmetic::div_mod::lemma_mod_sub_multiples_vanish(round - q, w);
            assert((round - q) - w == below - q);
            assert((-w + (round - q)) == below - q);
        }
        assert forall|q: int| #[trigger] ((below - q) % w) == 0 implies (round - q) % w == 0 by {
            vstd::arithmetic::div_mod::lemma_mod_add_multiples_vanish(below - q, w);
            assert(w + (below - q) == round - q);
        }
        let taken = s.dag.contains_key(here) && s.links(current, s.dag[here].certificate);
        let next = if taken {
            s.dag[here].certificate
        } else {
            current
        };
        if s.dag.contains_key(here) {
            assert(consensus.leader_entry(s, round as Round) == Some(s.dag[here]));
            assert(s.dag[here].certificate.header.round == round);
        } else {
            assert(consensus.leader_entry(s, round as Round) is None);
        }
        lemma_chain_taken(consensus, s, next, start, below, wave);
        let rest = seq![next] + consensus.leader_chain(s, next, start, below, wave);
        if taken {
            assert(list =~= seq![current] + rest);
            assert forall|k: int| 0 < k < list.len() implies #[trigger] is_taken(
                &consensus,
                s,
                list,
                k,
                start as int,
                round,
                w,
            ) by {
                assert(list[k] == rest[k - 1]);
                if k > 1 {
                    assert(is_taken(&consensus, s, rest, k - 1, start as int, below, w));
                    assert(list[k - 1] == rest[k - 2]);
                    assert((below - list[k].header.round) % w == 0);
                } else {
                    assert(list[0] == current && list[1] == next);
                    vstd::arithmetic::div_mod::lemma_small_mod(0, w as nat);
                }
            }
        } else {
            assert(list == rest);
            assert forall|k: int| 0 < k < list.len() implies #[trigger] is_taken(
                &consensus,
                s,
                list,
                k,
                start as int,
                round,
                w,
            ) by {
                assert(is_taken(&consensus, s, rest, k, start as int, below, w));
                assert((below - list[k].header.round) % w == 0);
            }
        }
        assert forall|q: Round|
            #![trigger s.dag.contains_key(at(q, turn(&consensus, q as int)))]
            start <= q <= round && (round - q) % w == 0 && s.dag.contains_key(
                at(q, turn(&consensus, q as int)),
            ) implies ({
            let c = s.dag[at(q, turn(&consensus, q as int))].certificate;
            list.contains(c) || is_passed(s, list, c)
        }) by {
            let c = s.dag[at(q, turn(&consensus, q as int))].certificate;
            assert(c.header.round == q);
            if q == round {
                if taken {
                    assert(list[1] == next);
                    assert(list.contains(c));
                } else {
                    assert(list[0] == current);
                    if list.len() > 1 {
                        assert(is_taken(&consensus, s, rest, 1, start as int, below, w));
                    }
                    assert(is_passed(s, list, c));
                }
            } else {
                assert((round - (q as int)) % w == 0);
                assert(q <= below && (below - (q as int)) % w == 0);
                if rest.contains(c) {
                    let k = choose|k: int| 0 <= k < rest.len() && rest[k] == c;
                    if taken {
                        assert(list[k + 1] == c);
                    }
                } else {
                    let k = choose|k: int|
                        0 <= k < rest.len() && (#[trigger] rest[k]).header.round > c.header.round
                            && (k + 1 < rest.len() ==> rest[k + 1].header.round < c.header.round)
                            && !s.links(rest[k], c);
                    if taken {
                        assert(list[k + 1] == rest[k]);
                        if k + 2 < list.len() {
                            assert(list[k + 2] == rest[k + 1]);
                        }
                        assert(is_passed(s, list, c));
                    }
                }
            }
        }
    } else {
        assert(list =~= seq![current]);
    }
}

/// The leader round of a round is whole waves on: it lies a wave and a solid step before the round, at
/// the start of a wave, and there is one exactly from two waves and a step on, a step after the start
/// of a wave.
pub proof fn lemma_normal_leader_round(consensus: Consensus, round: Round)
    requires
        round >= consensus.committee().solid_step_length
            ==> consensus.committee().solid_wave_length > 0,
    ensures
        ({
            let step = consensus.committee().solid_step_length;
            let wave = consensus.committee().solid_wave_length;
            match consensus.normal_leader_round(round) {
                Some(leader) => leader + wave + step == round && leader >= wave && (leader as int) % (
                wave as int) == 0,
                None => round < step + 2 * wave || (round - step) % (wave as int) != 0,
            }
        }),
{
    let step = consensus.committee().solid_step_length as int;
    let wave = consensus.committee().solid_wave_length as int;
    let r = round - step;
    if r < 0 {
        assert(consensus.normal_leader_round(round) is None);
    } else {
        lemma_wave_before(r, wave);
    }
}

/// A wave before the start of a wave another one starts.
proof fn lemma_wave_before(r: int, wave: int)
    requires
        wave > 0,
    ensures
        (r - wave) % wave == r % wave,
{
    vstd::arithmetic::div_mod::lemma_mod_sub_multiples_vanish(r, wave);
    assert(-wave + r == r - wave);
}

} // verus!
