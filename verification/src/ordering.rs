//! The order in which certificates are committed.
use vstd::prelude::*;

use crate::committee::Round;
use crate::dag::lemma_push_contains;
use crate::messages::{Certificate, CertificateView};
use crate::traversal::{digests, reference_views};

verus! {

/// A list sorted by round with one more certificate, which goes behind those of its own round.
pub open spec fn insert_by_round(list: Seq<CertificateView>, c: CertificateView) -> Seq<
    CertificateView,
>
    decreases list.len(),
{
    if list.len() == 0 || list.last().round() <= c.round() {
        list.push(c)
    } else {
        insert_by_round(list.drop_last(), c).push(list.last())
    }
}

/// The certificates of a list in the order of their rounds; those of one round keep their order.
pub open spec fn sort_by_round(list: Seq<CertificateView>) -> Seq<CertificateView>
    decreases list.len(),
{
    if list.len() == 0 {
        seq![]
    } else {
        insert_by_round(sort_by_round(list.drop_last()), list.last())
    }
}

/// The rounds of a list never go down.
pub open spec fn rounds_ascend(list: Seq<CertificateView>) -> bool {
    forall|i: int, j: int|
        0 <= i < j < list.len() ==> (#[trigger] list[i]).round() <= (#[trigger] list[j]).round()
}

/// `list` with the certificates of `more` whose digests are new.
pub open spec fn merge_new(list: Seq<CertificateView>, more: Seq<CertificateView>) -> Seq<
    CertificateView,
>
    decreases more.len(),
{
    if more.len() == 0 {
        list
    } else {
        let merged = merge_new(list, more.drop_last());
        if digests(merged).contains(more.last().digest()) {
            merged
        } else {
            merged.push(more.last())
        }
    }
}

/// Where a certificate goes in a sorted list.
proof fn lemma_insert_place(list: Seq<CertificateView>, c: CertificateView, k: int)
    requires
        0 <= k <= list.len(),
        forall|i: int| k <= i < list.len() ==> (#[trigger] list[i]).round() > c.round(),
        k > 0 ==> list[k - 1].round() <= c.round(),
    ensures
        insert_by_round(list, c) == list.insert(k, c),
    decreases list.len(),
{
    if k == list.len() {
        assert(list.push(c) =~= list.insert(k, c));
    } else {
        lemma_insert_place(list.drop_last(), c, k);
        assert(list.drop_last().insert(k, c).push(list.last()) =~= list.insert(k, c));
    }
}

/// Sorts references to certificates by round, keeping the order within a round.
pub(crate) fn sort_references<'a>(list: &Vec<&'a Certificate>) -> (r: Vec<&'a Certificate>)
    ensures
        reference_views(r@) == sort_by_round(reference_views(list@)),
{
    let ghost views = reference_views(list@);
    let mut r: Vec<&'a Certificate> = Vec::new();
    let mut i: usize = 0;
    assert(reference_views(r@) =~= sort_by_round(views.take(0)));
    while i < list.len()
        invariant
            i <= list@.len(),
            views == reference_views(list@),
            reference_views(r@) == sort_by_round(views.take(i as int)),
        decreases list@.len() - i,
    {
        let c: &'a Certificate = list[i];
        let mut k: usize = r.len();
        while k > 0 && r[k - 1].round() > c.round()
            invariant
                k <= r@.len(),
                forall|j: int| k <= j < r@.len() ==> (#[trigger] r@[j])@.round() > c@.round(),
            decreases k,
        {
            k = k - 1;
        }
        let ghost held = reference_views(r@);
        r.insert(k, c);
        proof {
            lemma_insert_place(held, c@, k as int);
            assert(reference_views(r@) =~= held.insert(k as int, c@));
            assert(views.take(i + 1).drop_last() =~= views.take(i as int));
            assert(views.take(i + 1).last() == c@);
        }
        i = i + 1;
    }
    assert(views.take(i as int) =~= views);
    r
}

/// Inserting a certificate keeps a list sorted.
proof fn lemma_insert_ascends(list: Seq<CertificateView>, c: CertificateView)
    requires
        rounds_ascend(list),
    ensures
        rounds_ascend(insert_by_round(list, c)),
        list.len() > 0 ==> insert_by_round(list, c).last().round() == if list.last().round()
            <= c.round() {
            c.round()
        } else {
            list.last().round()
        },
        list.len() == 0 ==> insert_by_round(list, c) == seq![c],
        insert_by_round(list, c).len() == list.len() + 1,
    decreases list.len(),
{
    if list.len() == 0 {
        assert(insert_by_round(list, c) =~= seq![c]);
    } else if list.last().round() > c.round() {
        lemma_insert_ascends(list.drop_last(), c);
        let front = insert_by_round(list.drop_last(), c);
        assert(list.last() == list[list.len() - 1]);
        assert forall|i: int| 0 <= i < front.len() implies (#[trigger] front[i]).round()
            <= list.last().round() by {
            assert(front[i].round() <= front.last().round());
            if list.drop_last().len() > 0 {
                assert(list.drop_last().last() == list[list.len() - 2]);
            }
        }
    } else {
        assert forall|i: int| 0 <= i < list.len() implies (#[trigger] list[i]).round()
            <= c.round() by {
            assert(list[i].round() <= list.last().round());
        }
    }
}

/// Sorting a list gives one whose rounds never go down.
pub proof fn lemma_sorted_ascends(list: Seq<CertificateView>)
    ensures
        rounds_ascend(sort_by_round(list)),
    decreases list.len(),
{
    if list.len() > 0 {
        lemma_sorted_ascends(list.drop_last());
        lemma_insert_ascends(sort_by_round(list.drop_last()), list.last());
    }
}

proof fn lemma_insert_multiset(list: Seq<CertificateView>, c: CertificateView)
    ensures
        insert_by_round(list, c).to_multiset() == list.to_multiset().insert(c),
    decreases list.len(),
{
    broadcast use vstd::seq_lib::group_to_multiset_ensures;

    if list.len() > 0 && list.last().round() > c.round() {
        lemma_insert_multiset(list.drop_last(), c);
        assert(list =~= list.drop_last().push(list.last()));
        assert(insert_by_round(list, c).to_multiset() =~= list.to_multiset().insert(c));
    }
}

/// Sorting a list keeps exactly its certificates.
pub proof fn lemma_sorted_same(list: Seq<CertificateView>)
    ensures
        sort_by_round(list).to_multiset() == list.to_multiset(),
    decreases list.len(),
{
    broadcast use vstd::seq_lib::group_to_multiset_ensures;

    if list.len() > 0 {
        lemma_sorted_same(list.drop_last());
        lemma_insert_multiset(sort_by_round(list.drop_last()), list.last());
        assert(list =~= list.drop_last().push(list.last()));
    }
}

/// The certificates of one round, in their order.
pub open spec fn of_round(list: Seq<CertificateView>, round: Round) -> Seq<CertificateView> {
    list.filter(|c: CertificateView| c.round() == round)
}

proof fn lemma_of_round_push(list: Seq<CertificateView>, c: CertificateView, round: Round)
    ensures
        of_round(list.push(c), round) == if c.round() == round {
            of_round(list, round).push(c)
        } else {
            of_round(list, round)
        },
{
    reveal(Seq::filter);
    assert(list.push(c).drop_last() =~= list);
}

proof fn lemma_insert_keeps_order(list: Seq<CertificateView>, c: CertificateView, round: Round)
    ensures
        of_round(insert_by_round(list, c), round) == of_round(list.push(c), round),
    decreases list.len(),
{
    if list.len() > 0 && list.last().round() > c.round() {
        let front = list.drop_last();
        lemma_insert_keeps_order(front, c, round);
        lemma_of_round_push(insert_by_round(front, c), list.last(), round);
        lemma_of_round_push(front, c, round);
        lemma_of_round_push(front, list.last(), round);
        lemma_of_round_push(list, c, round);
        assert(front.push(list.last()) =~= list);
    }
}

/// Sorting a list keeps the order of the certificates of each round.
pub proof fn lemma_sorted_stable(list: Seq<CertificateView>, round: Round)
    ensures
        of_round(sort_by_round(list), round) == of_round(list, round),
    decreases list.len(),
{
    if list.len() > 0 {
        let front = list.drop_last();
        lemma_sorted_stable(front, round);
        lemma_insert_keeps_order(sort_by_round(front), list.last(), round);
        lemma_of_round_push(sort_by_round(front), list.last(), round);
        lemma_of_round_push(front, list.last(), round);
        assert(front.push(list.last()) =~= list);
    }
}

/// A list and its sorted form have the same certificates, and repeat none where the other does not.
pub(crate) proof fn lemma_sorted_members(list: Seq<CertificateView>)
    ensures
        forall|c: CertificateView| #[trigger]
            sort_by_round(list).contains(c) == list.contains(c),
        list.no_duplicates() ==> sort_by_round(list).no_duplicates(),
{
    broadcast use vstd::seq_lib::group_to_multiset_ensures;

    lemma_sorted_same(list);
    let sorted = sort_by_round(list);
    assert forall|c: CertificateView| #[trigger] sorted.contains(c) == list.contains(c) by {
        assert(sorted.contains(c) == (sorted.to_multiset().count(c) > 0));
        assert(list.contains(c) == (list.to_multiset().count(c) > 0));
    }
    if list.no_duplicates() {
        list.lemma_multiset_has_no_duplicates();
        sorted.lemma_multiset_has_no_duplicates_conv();
    }
}

/// Merging adds what is new, and repeats no digest.
pub(crate) proof fn lemma_merge_members(list: Seq<CertificateView>, more: Seq<CertificateView>)
    ensures
        list.is_prefix_of(merge_new(list, more)),
        forall|c: CertificateView| #[trigger]
            merge_new(list, more).contains(c) ==> list.contains(c) || more.contains(c),
        forall|c: CertificateView| #[trigger]
            more.contains(c) ==> digests(merge_new(list, more)).contains(c.digest()),
        digests(list).no_duplicates() ==> digests(merge_new(list, more)).no_duplicates(),
    decreases more.len(),
{
    let merged = merge_new(list, more);
    if more.len() > 0 {
        let earlier = merge_new(list, more.drop_last());
        let last = more.last();
        lemma_merge_members(list, more.drop_last());
        assert(more =~= more.drop_last().push(last));
        assert(digests(earlier.push(last)) =~= digests(earlier).push(last.digest()));
        assert forall|c: CertificateView| #[trigger] merged.contains(c) implies list.contains(c)
            || more.contains(c) by {
            lemma_push_contains(more.drop_last(), last, c);
            lemma_push_contains(earlier, last, c);
        }
        assert forall|c: CertificateView| #[trigger] more.contains(c) implies digests(
            merged,
        ).contains(c.digest()) by {
            lemma_push_contains(more.drop_last(), last, c);
            lemma_push_contains(digests(earlier), last.digest(), c.digest());
        }
        if digests(list).no_duplicates() && !digests(earlier).contains(last.digest()) {
            let all = digests(merged);
            assert forall|i: int, j: int| 0 <= i < j < all.len() implies all[i] != all[j] by {
                assert(digests(earlier)[i] == all[i]);
                if j < earlier.len() {
                    assert(digests(earlier)[j] == all[j]);
                }
            }
        }
    }
}

} // verus!
