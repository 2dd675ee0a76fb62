//! What one primary hands to its proposer is what the other primaries accept.
use vstd::arithmetic::div_mod::{lemma_fundamental_div_mod, lemma_mod_decreases};
use vstd::prelude::*;

use crate::aggregators::{edge_kind, step_vertices, stretch_start, CertificatesView, EdgeKind};
use crate::committee::{Committee, Round, RoundRule};
use crate::crypto::PublicKey;
use crate::messages::{CertificateView, HeaderView};
use crate::primary::{in_step, in_wave, parents_verdict, step_stake, step_union};
use crate::traversal::digests;

verus! {

/// What has been collected for a header of the round after `expected` from a list of certificates, and
/// those of them that have been counted.
pub open spec fn collected(
    expected: Round,
    committee: &Committee,
    rule: RoundRule,
    arrivals: Seq<CertificateView>,
) -> (CertificatesView, Seq<CertificateView>)
    decreases arrivals.len(),
{
    if arrivals.len() == 0 {
        (CertificatesView::empty(expected), seq![])
    } else {
        let (before, list) = collected(expected, committee, rule, arrivals.drop_last());
        let c = arrivals.last();
        let kind = edge_kind(
            expected,
            c.round(),
            committee.solid_step_length,
            committee.solid_wave_length,
        );
        (
            before.appended(c, committee, rule).0,
            if before.repeats(c) || kind == EdgeKind::Outside {
                list
            } else {
                list.push(c)
            },
        )
    }
}

/// What a certificate hands on is what its header has merged: it has merged something, or it hands on
/// nothing.
pub open spec fn hands_on_merged(c: CertificateView) -> bool {
    step_vertices(c.header) == c.header.solid_step_vertices_merged
}

/// Where waves are made of whole steps, a wave starts no later than any step in it.
proof fn lemma_wave_starts_first(round: Round, step_length: Round, wave_length: Round)
    requires
        step_length > 0,
        wave_length > 0,
        (wave_length as int) % (step_length as int) == 0,
    ensures
        0 <= stretch_start(round, wave_length) <= stretch_start(round, step_length) <= round,
{
    let r = round as int;
    let s = step_length as int;
    let w = wave_length as int;
    lemma_fundamental_div_mod(r, s);
    lemma_fundamental_div_mod(r, w);
    lemma_fundamental_div_mod(w, s);
    lemma_mod_decreases(round as nat, wave_length as nat);
    lemma_mod_decreases(round as nat, step_length as nat);
    let steps = w / s;
    let waves = r / w;
    let k = steps * waves;
    assert(w * waves == s * k) by (nonlinear_arith)
        requires
            w == s * steps,
            k == steps * waves,
    ;
    // The wave starts with the k-th step, which has begun by `round`.
    assert(k <= r / s) by (nonlinear_arith)
        requires
            s > 0,
            s * k <= r,
            r == s * (r / s) + r % s,
            r % s < s,
    ;
    assert(s * k <= s * (r / s)) by (nonlinear_arith)
        requires
            s > 0,
            k <= r / s,
    ;
}

/// A certificate of a list is to be counted for a header of the round after `expected`: it is of an
/// earlier round of the same wave, or the first of its author in the round `expected`.
pub open spec fn counts(
    expected: Round,
    committee: &Committee,
    arrivals: Seq<CertificateView>,
    i: int,
) -> bool {
    let round = arrivals[i].round();
    ||| stretch_start(expected, committee.solid_wave_length) <= round < expected
    ||| round == expected && forall|j: int|
        0 <= j < i ==> (#[trigger] arrivals[j]).round() != expected || arrivals[j].origin()
            != arrivals[i].origin()
}

/// The authorities that have been used have given a certificate of the expected round.
proof fn lemma_used(
    expected: Round,
    committee: &Committee,
    rule: RoundRule,
    arrivals: Seq<CertificateView>,
)
    ensures
        collected(expected, committee, rule, arrivals).0.expected_round == expected,
        forall|a: PublicKey| #[trigger]
            collected(expected, committee, rule, arrivals).0.used.contains(a) ==> exists|j: int|
                0 <= j < arrivals.len() && (#[trigger] arrivals[j]).round() == expected
                    && arrivals[j].origin() == a,
    decreases arrivals.len(),
{
    if arrivals.len() > 0 {
        let earlier = arrivals.drop_last();
        lemma_used(expected, committee, rule, earlier);
        let before = collected(expected, committee, rule, earlier).0;
        let after = collected(expected, committee, rule, arrivals).0;
        assert forall|a: PublicKey| #[trigger] after.used.contains(a) implies exists|j: int|
            0 <= j < arrivals.len() && (#[trigger] arrivals[j]).round() == expected
                && arrivals[j].origin() == a by {
            if before.used.contains(a) {
                let j = choose|j: int|
                    0 <= j < earlier.len() && (#[trigger] earlier[j]).round() == expected
                        && earlier[j].origin() == a;
                assert(arrivals[j] == earlier[j]);
            } else {
                assert(arrivals[arrivals.len() - 1].origin() == a);
            }
        }
    }
}

/// No certificate that is to be counted is left out: it is among the parents that have been collected
/// from then on, and among those that are handed on with any later certificate.
pub proof fn lemma_counted_stays(
    expected: Round,
    committee: &Committee,
    rule: RoundRule,
    arrivals: Seq<CertificateView>,
    i: int,
)
    requires
        0 <= i < arrivals.len(),
        counts(expected, committee, arrivals, i),
    ensures
        ({
            let (v, list) = collected(expected, committee, rule, arrivals);
            let before = collected(expected, committee, rule, arrivals.drop_last()).0;
            let handed = before.appended(arrivals.last(), committee, rule).1;
            &&& list.contains(arrivals[i])
            &&& v.certificates.contains(arrivals[i].digest())
            &&& handed matches Some(s) ==> s.parents.contains(arrivals[i].digest())
        }),
    decreases arrivals.len(),
{
    let earlier = arrivals.drop_last();
    let (before, listed) = collected(expected, committee, rule, earlier);
    let (after, list) = collected(expected, committee, rule, arrivals);
    let c = arrivals.last();
    let d = arrivals[i].digest();
    lemma_used(expected, committee, rule, earlier);
    if i < earlier.len() {
        assert(earlier[i] == arrivals[i]);
        assert(counts(expected, committee, earlier, i)) by {
            assert forall|j: int| 0 <= j < i implies earlier[j] == arrivals[j] by {}
        }
        lemma_counted_stays(expected, committee, rule, earlier, i);
        let k = choose|k: int| 0 <= k < before.certificates.len() && before.certificates[k] == d;
        assert(after.certificates[k] == d);
        let k = choose|k: int| 0 <= k < listed.len() && listed[k] == arrivals[i];
        assert(list[k] == arrivals[i]);
    } else {
        assert(!before.repeats(c)) by {
            if before.repeats(c) {
                let j = choose|j: int|
                    0 <= j < earlier.len() && (#[trigger] earlier[j]).round() == expected
                        && earlier[j].origin() == c.origin();
                assert(arrivals[j] == earlier[j]);
            }
        }
        assert(after.certificates == before.certificates.push(d));
        assert(after.certificates[before.certificates.len() as int] == d);
        assert(list[listed.len() as int] == c);
    }
}

/// Only the window of the wave counts: where waves are made of whole steps, a certificate of a round
/// before the wave or after the expected round changes nothing and hands nothing on, and neither does
/// a second one of an author in the expected round. Any other is added to the parents.
pub proof fn lemma_window(
    v: CertificatesView,
    c: CertificateView,
    committee: &Committee,
    rule: RoundRule,
)
    requires
        committee.solid_step_length > 0,
        committee.solid_wave_length > 0,
        (committee.solid_wave_length as int) % (committee.solid_step_length as int) == 0,
    ensures
        ({
            let start = stretch_start(v.expected_round, committee.solid_wave_length);
            let (after, handed) = v.appended(c, committee, rule);
            if start <= c.round() <= v.expected_round && !v.repeats(c) {
                after.certificates == v.certificates.push(c.digest())
            } else {
                after == v && handed is None
            }
        }),
{
    lemma_wave_starts_first(
        v.expected_round,
        committee.solid_step_length,
        committee.solid_wave_length,
    );
}

/// The certificates that have been counted are in the window of the wave, and bring what has been
/// collected.
proof fn lemma_collected(
    expected: Round,
    committee: &Committee,
    rule: RoundRule,
    arrivals: Seq<CertificateView>,
)
    requires
        committee.solid_step_length > 0,
        committee.solid_wave_length > 0,
        (committee.solid_wave_length as int) % (committee.solid_step_length as int) == 0,
        expected < Round::MAX,
    ensures
        ({
            let (v, list) = collected(expected, committee, rule, arrivals);
            let round = (expected + 1) as Round;
            &&& v.expected_round == expected
            &&& v.certificates == digests(list)
            &&& forall|i: int|
                0 <= i < list.len() ==> in_wave(
                    round,
                    committee.solid_wave_length,
                    #[trigger] list[i],
                )
            &&& v.weight <= step_stake(round, committee, list)
            &&& (forall|i: int|
                0 <= i < arrivals.len() ==> hands_on_merged(#[trigger] arrivals[i]))
                ==> v.solid_step_union == step_union(round, committee, list)
        }),
    decreases arrivals.len(),
{
    let (v, list) = collected(expected, committee, rule, arrivals);
    let round = (expected + 1) as Round;
    if arrivals.len() == 0 {
        assert(digests(list) =~= v.certificates);
    } else {
        let earlier = arrivals.drop_last();
        lemma_collected(expected, committee, rule, earlier);
        let (before, listed) = collected(expected, committee, rule, earlier);
        let c = arrivals.last();
        assert(arrivals[arrivals.len() - 1] == c);
        lemma_wave_starts_first(
            expected,
            committee.solid_step_length,
            committee.solid_wave_length,
        );
        let kind = edge_kind(
            expected,
            c.round(),
            committee.solid_step_length,
            committee.solid_wave_length,
        );
        if !before.repeats(c) && kind != EdgeKind::Outside {
            assert(list == listed.push(c));
            assert(list.drop_last() =~= listed);
            assert(list.last() == c);
            assert(digests(list) =~= digests(listed).push(c.digest()));
            assert(in_step(round, committee.solid_step_length, c) == (kind != EdgeKind::WaveWeak));
            assert forall|i: int| 0 <= i < list.len() implies in_wave(
                round,
                committee.solid_wave_length,
                #[trigger] list[i],
            ) by {
                if i < listed.len() {
                    assert(list[i] == listed[i]);
                }
            }
            if forall|i: int|
                0 <= i < arrivals.len() ==> hands_on_merged(#[trigger] arrivals[i]) {
                assert forall|i: int| 0 <= i < earlier.len() implies hands_on_merged(
                    #[trigger] earlier[i],
                ) by {
                    assert(earlier[i] == arrivals[i]);
                }
                assert(v.solid_step_union =~= step_union(round, committee, list));
            }
        } else if forall|i: int|
            0 <= i < arrivals.len() ==> hands_on_merged(#[trigger] arrivals[i]) {
            assert forall|i: int| 0 <= i < earlier.len() implies hands_on_merged(
                #[trigger] earlier[i],
            ) by {
                assert(earlier[i] == arrivals[i]);
            }
        }
    }
}

/// The parents that are handed to a proposer are accepted: where waves are made of whole steps, the
/// certificates collected for a round, once they suffice, are parents with which a header of that
/// round passes. At the end of a solid step this takes certificates that hand on what they have
/// merged.
pub proof fn lemma_collected_parents_pass(
    header: HeaderView,
    committee: &Committee,
    rule: RoundRule,
    arrivals: Seq<CertificateView>,
)
    requires
        committee.solid_step_length > 0,
        committee.solid_wave_length > 0,
        (committee.solid_wave_length as int) % (committee.solid_step_length as int) == 0,
        header.round > 0,
        rule.is_solid_step ==> forall|i: int|
            0 <= i < arrivals.len() ==> hands_on_merged(#[trigger] arrivals[i]),
        collected((header.round - 1) as Round, committee, rule, arrivals).0.suffices(rule),
    ensures
        ({
            let (v, list) = collected((header.round - 1) as Round, committee, rule, arrivals);
            &&& v.snapshot().parents == digests(list)
            &&& parents_verdict(header, committee, list, rule) is Ok
        }),
{
    lemma_collected((header.round - 1) as Round, committee, rule, arrivals);
}

} // verus!
