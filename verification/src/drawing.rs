//! What the drawing of the DAG shows.
use vstd::prelude::*;

use crate::committee::Round;
use crate::consensus::{Consensus, UNKNOWN_NODE};
use crate::crypto::{Digest, PublicKey};
use crate::dag::{CommitStatus, DagPosition, StateView};
use crate::decisions::{at, present};
use crate::keys::ordered;
use crate::text::{
    decimal, digit, joined, lemma_texts_sorted, sorted_texts, text_below, Text,
};

verus! {

/// What a text is worth as a number: its digits, the last one counting singly.
pub open spec fn worth(text: Text) -> nat
    decreases text.len(),
{
    if text.len() == 0 {
        0
    } else {
        10 * worth(text.drop_last()) + (text.last() as nat - '0' as nat) as nat
    }
}

/// A character is one of the ten digits.
pub open spec fn is_digit(c: char) -> bool {
    '0' <= c <= '9'
}

/// The digit of a number below ten.
proof fn lemma_digit(n: nat)
    requires
        n < 10,
    ensures
        digit(n).len() == 1,
        is_digit(digit(n)[0]),
        digit(n)[0] as nat == '0' as nat + n,
{
    reveal_strlit("0");
    reveal_strlit("1");
    reveal_strlit("2");
    reveal_strlit("3");
    reveal_strlit("4");
    reveal_strlit("5");
    reveal_strlit("6");
    reveal_strlit("7");
    reveal_strlit("8");
    reveal_strlit("9");
}

/// A number is written with digits that are worth it, and begins with a zero only if it is zero.
pub proof fn lemma_decimal(n: nat)
    ensures
        worth(decimal(n)) == n,
        decimal(n).len() > 0,
        forall|i: int| 0 <= i < decimal(n).len() ==> is_digit(#[trigger] decimal(n)[i]),
        n > 0 ==> decimal(n)[0] != '0',
    decreases n,
{
    if n < 10 {
        lemma_digit(n);
        assert(worth(decimal(n).drop_last()) == 0);
    } else {
        lemma_decimal(n / 10);
        lemma_digit(n % 10);
        let text = decimal(n);
        assert(text.drop_last() =~= decimal(n / 10));
        assert(text.last() == digit(n % 10)[0]);
    }
}

/// Joining puts the separator between any two parts of a list, and nothing around them.
pub proof fn lemma_joined(a: Seq<Text>, b: Seq<Text>, separator: Text)
    ensures
        joined(seq![], separator) == Seq::<char>::empty(),
        a.len() == 1 ==> joined(a, separator) == a[0],
        a.len() > 0 && b.len() > 0 ==> joined(a + b, separator) == joined(a, separator) + separator
            + joined(b, separator),
    decreases b.len(),
{
    if a.len() > 0 && b.len() > 0 {
        let rest = b.drop_last();
        assert((a + b).drop_last() =~= a + rest);
        assert((a + b).last() == b.last());
        if rest.len() > 0 {
            lemma_joined(a, rest, separator);
            assert(joined(a + b, separator) =~= joined(a, separator) + separator + joined(
                b,
                separator,
            ));
        } else {
            assert(a + rest =~= a);
        }
    }
}

/// The number of an author, or that of unknown ones.
pub open spec fn number_of(consensus: &Consensus, author: PublicKey) -> nat {
    match consensus.committee().node_of(author) {
        Some(node) => node as nat,
        None => UNKNOWN_NODE as nat,
    }
}

/// Which lines are drawn: one for each round from the given one down to the first that has
/// certificates, the latest first, and none for any other.
pub proof fn lemma_lines(consensus: Consensus, s: StateView, current_round: Round) -> (r: Seq<Round>)
    requires
        s.dag.dom().finite(),
    ensures
        consensus.dag_texts(s, current_round) == r.map_values(
            |round: Round| consensus.round_text(s, round),
        ),
        forall|round: Round| #[trigger]
            r.contains(round) <==> 0 < round <= current_round && exists|a: PublicKey| #[trigger]
                s.dag.contains_key(at(round, a)),
        forall|i: int, j: int| 0 <= i < j < r.len() ==> #[trigger] r[i] > #[trigger] r[j],
    decreases current_round,
{
    let line = |round: Round| consensus.round_text(s, round);
    if current_round == 0 {
        let r: Seq<Round> = seq![];
        assert(r.map_values(line) =~= consensus.dag_texts(s, current_round));
        r
    } else {
        let below = (current_round - 1) as Round;
        let rest = lemma_lines(consensus, s, below);
        crate::safety::lemma_authors_finite(s, current_round);
        if s.authors(current_round).len() > 0 {
            let a = s.authors(current_round).choose();
            assert(s.authors(current_round).contains(a));
            assert(s.dag.contains_key(at(current_round, a)));
            let r = seq![current_round] + rest;
            assert(r.map_values(line) =~= consensus.dag_texts(s, current_round));
            assert forall|round: Round| #[trigger] r.contains(round) <==> 0 < round
                <= current_round && exists|a: PublicKey| #[trigger] s.dag.contains_key(
                at(round, a),
            ) by {
                if r.contains(round) {
                    let i = choose|i: int| 0 <= i < r.len() && r[i] == round;
                    if i > 0 {
                        assert(rest[i - 1] == round);
                        assert(rest.contains(round));
                    }
                }
                if rest.contains(round) {
                    let i = choose|i: int| 0 <= i < rest.len() && rest[i] == round;
                    assert(r[i + 1] == round);
                }
                if round == current_round {
                    assert(r[0] == round);
                }
            }
            assert forall|i: int, j: int| 0 <= i < j < r.len() implies #[trigger] r[i]
                > #[trigger] r[j] by {
                assert(r[j] == rest[j - 1]);
                if i > 0 {
                    assert(r[i] == rest[i - 1]);
                } else {
                    assert(rest.contains(rest[j - 1]));
                }
            }
            r
        } else {
            assert(consensus.dag_texts(s, current_round) =~= rest.map_values(line));
            assert forall|round: Round| #[trigger] rest.contains(round) <==> 0 < round
                <= current_round && exists|a: PublicKey| #[trigger] s.dag.contains_key(
                at(round, a),
            ) by {
                if round == current_round && exists|a: PublicKey| #[trigger] s.dag.contains_key(
                    at(round, a),
                ) {
                    let a = choose|a: PublicKey| #[trigger] s.dag.contains_key(at(round, a));
                    assert(s.authors(current_round).contains(a));
                }
            }
            rest
        }
    }
}

/// How a digest is drawn: as the round and the number of the place that the index has for it, or as
/// unknown.
pub proof fn lemma_vertex(consensus: Consensus, s: StateView, d: Digest)
    ensures
        consensus.vertex_text(s, d) == if s.digest_index.contains_key(d) {
            "["@ + decimal(s.digest_index[d].round as nat) + ","@ + decimal(
                number_of(&consensus, s.digest_index[d].author),
            ) + "]"@
        } else {
            "[?,?]"@
        },
{
}

/// How one parent of a certificate of a round is drawn among the parents: in the round before, by its
/// place; in any other round, by its place with a mark; unknown, with question marks, but not at all in
/// the first round. Those with a mark are drawn a second time, and only those.
pub proof fn lemma_parent(consensus: Consensus, s: StateView, round: Round, d: Digest)
    ensures
        ({
            let p = s.digest_index[d];
            let marked = "[w"@ + decimal(p.round as nat) + ","@ + decimal(
                number_of(&consensus, p.author),
            ) + "]"@;
            let parents = consensus.parent_texts(s, round, seq![d]);
            let weak = consensus.weak_texts(s, round, seq![d]);
            if s.digest_index.contains_key(d) && p.round + 1 != round {
                parents == seq![marked] && weak == seq![marked]
            } else if s.digest_index.contains_key(d) || round != 1 {
                parents == seq![consensus.vertex_text(s, d)] && weak.len() == 0
            } else {
                parents.len() == 0 && weak.len() == 0
            }
        }),
{
    assert(seq![d].drop_last() =~= seq![]);
    assert(seq![d].last() == d);
    assert(consensus.parent_texts(s, round, seq![d].drop_last()) =~= seq![]);
    assert(consensus.weak_texts(s, round, seq![d].drop_last()) =~= seq![]);
    let p = s.digest_index[d];
    let marked = "[w"@ + decimal(p.round as nat) + ","@ + decimal(number_of(&consensus, p.author))
        + "]"@;
    assert(Seq::<Text>::empty().push(marked) =~= seq![marked]);
    assert(Seq::<Text>::empty().push(consensus.vertex_text(s, d)) =~= seq![
        consensus.vertex_text(s, d),
    ]);
}

/// The parents are drawn one after the other.
pub proof fn lemma_parents(
    consensus: Consensus,
    s: StateView,
    round: Round,
    a: Seq<Digest>,
    b: Seq<Digest>,
)
    ensures
        consensus.parent_texts(s, round, a + b) == consensus.parent_texts(s, round, a)
            + consensus.parent_texts(s, round, b),
        consensus.weak_texts(s, round, a + b) == consensus.weak_texts(s, round, a)
            + consensus.weak_texts(s, round, b),
    decreases b.len(),
{
    if b.len() == 0 {
        assert(a + b =~= a);
        assert(consensus.parent_texts(s, round, b) =~= seq![]);
        assert(consensus.weak_texts(s, round, b) =~= seq![]);
        assert(consensus.parent_texts(s, round, a) + seq![] =~= consensus.parent_texts(s, round, a));
        assert(consensus.weak_texts(s, round, a) + seq![] =~= consensus.weak_texts(s, round, a));
    } else {
        assert((a + b).drop_last() =~= a + b.drop_last());
        assert((a + b).last() == b.last());
        lemma_parents(consensus, s, round, a, b.drop_last());
        assert(consensus.parent_texts(s, round, a + b) =~= consensus.parent_texts(s, round, a)
            + consensus.parent_texts(s, round, b));
        assert(consensus.weak_texts(s, round, a + b) =~= consensus.weak_texts(s, round, a)
            + consensus.weak_texts(s, round, b));
    }
}

/// A part of a drawing that is left out where there is nothing to list.
pub open spec fn listed(name: Text, list: Seq<Text>) -> Text {
    if list.len() == 0 {
        seq![]
    } else {
        name + joined(list, ", "@) + "]"@
    }
}

/// What a line shows: the round, and each of its certificates in the order of their authors, with the
/// number of the author, the parents, those with a mark, how many solid-wave vertices it carries, which
/// these are, which it hands on, and what has been decided of it.
pub proof fn lemma_line(consensus: Consensus, s: StateView, round: Round, author: PublicKey)
    ensures
        ({
            let entry = s.dag[DagPosition { round, author }];
            let header = entry.certificate.header;
            let parents = ordered(header.parents);
            let vertices = ordered(header.solid_wave_vertices);
            let merged = ordered(header.solid_wave_vertices_merged);
            let status = match entry.status {
                CommitStatus::OneValent => " one-valent"@,
                CommitStatus::ZeroValent => " zero-valent"@,
                CommitStatus::Bivalent => " bivalent"@,
                CommitStatus::Pending => Seq::<char>::empty(),
            };
            consensus.entry_text(s, round, author) == "(Vertex"@ + decimal(
                number_of(&consensus, author),
            ) + ")["@ + joined(consensus.parent_texts(s, round, parents), ", "@) + "]"@ + listed(
                " weak=["@,
                consensus.weak_texts(s, round, parents),
            ) + " (solid_wave_vertices: "@ + decimal(header.solid_wave_vertices.len()) + ")"@
                + listed(
                " solid=["@,
                Seq::new(
                    vertices.len(),
                    |i: int| consensus.vertex_text(s, vertices[i]),
                ),
            ) + listed(
                " merged=["@,
                Seq::new(merged.len(), |i: int| consensus.vertex_text(s, merged[i])),
            ) + status
        }),
        ({
            let authors = ordered(present(s, round));
            consensus.round_text(s, round) == "Round "@ + decimal(round as nat) + ": "@ + joined(
                Seq::new(authors.len(), |i: int| consensus.entry_text(s, round, authors[i])),
                " --- "@,
            ) + " "@
        }),
{
    reveal_strlit("");
    reveal_strlit(" ");
    reveal_strlit(":");
    reveal_strlit(": ");
    reveal_strlit(")");
    reveal_strlit("[");
    reveal_strlit(")[");
    let entry = s.dag[DagPosition { round, author }];
    let header = entry.certificate.header;
    let parents = ordered(header.parents);
    let vertices = ordered(header.solid_wave_vertices);
    let merged = ordered(header.solid_wave_vertices_merged);
    let solid_texts = Seq::new(vertices.len(), |i: int| consensus.vertex_text(s, vertices[i]));
    let merged_texts = Seq::new(merged.len(), |i: int| consensus.vertex_text(s, merged[i]));
    assert(consensus.vertex_texts(s, vertices) =~= solid_texts);
    assert(consensus.vertex_texts(s, merged) =~= merged_texts);
    let weak = consensus.weak_texts(s, round, parents);
    let status = match entry.status {
        CommitStatus::OneValent => " one-valent"@,
        CommitStatus::ZeroValent => " zero-valent"@,
        CommitStatus::Bivalent => " bivalent"@,
        CommitStatus::Pending => Seq::<char>::empty(),
    };
    assert(crate::render::status_text(entry.status) =~= status);
    assert(crate::render::named_list_text(" solid=["@, solid_texts) =~= listed(
        " solid=["@,
        solid_texts,
    ));
    assert(crate::render::named_list_text(" merged=["@, merged_texts) =~= listed(
        " merged=["@,
        merged_texts,
    ));
    assert(consensus.entry_text(s, round, author) =~= "(Vertex"@ + decimal(
        number_of(&consensus, author),
    ) + ")["@ + joined(consensus.parent_texts(s, round, parents), ", "@) + "]"@ + listed(
        " weak=["@,
        weak,
    ) + " (solid_wave_vertices: "@ + decimal(header.solid_wave_vertices.len()) + ")"@ + listed(
        " solid=["@,
        solid_texts,
    ) + listed(" merged=["@, merged_texts) + status);
    let authors = ordered(present(s, round));
    assert(present(s, round) =~= s.authors(round));
    let entries = Seq::new(authors.len(), |i: int| consensus.entry_text(s, round, authors[i]));
    assert(authors.map_values(|a: PublicKey| consensus.entry_text(s, round, a)) =~= entries);
    assert(consensus.round_text(s, round) =~= "Round "@ + decimal(round as nat) + ": "@ + joined(
        entries,
        " --- "@,
    ) + " "@);
}

/// A set of digests is drawn as the vertices that they stand for, in the order of a dictionary.
pub proof fn lemma_digest_set(consensus: Consensus, s: StateView, digests: Set<Digest>)
    ensures
        ({
            let list = ordered(digests);
            let vertices = Seq::new(list.len(), |i: int| consensus.vertex_text(s, list[i]));
            &&& consensus.digest_set_text(s, digests) == joined(sorted_texts(vertices), ", "@)
            &&& sorted_texts(vertices).to_multiset() == vertices.to_multiset()
            &&& forall|i: int, j: int|
                0 <= i < j < sorted_texts(vertices).len() ==> !text_below(
                    #[trigger] sorted_texts(vertices)[j],
                    #[trigger] sorted_texts(vertices)[i],
                )
        }),
{
    let list = ordered(digests);
    let vertices = Seq::new(list.len(), |i: int| consensus.vertex_text(s, list[i]));
    assert(consensus.vertex_texts(s, list) =~= vertices);
    lemma_texts_sorted(vertices);
}

} // verus!
