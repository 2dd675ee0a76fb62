//! The DAG and its messages as text, for logs.
use vstd::prelude::*;
use vstd::string::StringExecFns;

use crate::collections::KeySet;
use crate::committee::Round;
use crate::consensus::{Consensus, UNKNOWN_NODE};
use crate::crypto::{Digest, PublicKey};
use crate::dag::{position, CommitStatus, DagEntry, DagPosition, State, StateView};
use crate::keys::ordered;
use crate::messages::{Certificate, Header, ProposalParents, Vote};
use crate::primary::Core;
use crate::text::{decimal, join, joined, sort_texts, sorted_texts, texts, write_decimal, Text};

verus! {

/// A round and a node.
pub open spec fn place_text(round: Round, node: usize) -> Text {
    "["@ + decimal(round as nat) + ","@ + decimal(node as nat) + "]"@
}

/// A round and a node at the end of a weak link.
pub open spec fn weak_place_text(round: Round, node: usize) -> Text {
    "[w"@ + decimal(round as nat) + ","@ + decimal(node as nat) + "]"@
}

/// What has been decided of a certificate.
pub open spec fn status_text(status: CommitStatus) -> Text {
    match status {
        CommitStatus::OneValent => " one-valent"@,
        CommitStatus::ZeroValent => " zero-valent"@,
        CommitStatus::Bivalent => " bivalent"@,
        CommitStatus::Pending => ""@,
    }
}

/// A list under a name, or nothing for an empty list.
pub open spec fn named_list_text(name: Text, list: Seq<Text>) -> Text {
    if list.len() == 0 {
        ""@
    } else {
        name + joined(list, ", "@) + "]"@
    }
}

impl Consensus {
    /// The round and the node of the certificate with a digest or a header id.
    pub open spec fn vertex_text(&self, s: StateView, digest: Digest) -> Text {
        if s.digest_index.contains_key(digest) {
            let p = s.digest_index[digest];
            place_text(p.round, self.node_id(p.author))
        } else {
            "[?,?]"@
        }
    }

    /// The vertices of a list of digests.
    pub open spec fn vertex_texts(&self, s: StateView, digests: Seq<Digest>) -> Seq<Text> {
        digests.map_values(|d: Digest| self.vertex_text(s, d))
    }

    /// The link to a parent skips a round.
    pub open spec fn is_weak(&self, s: StateView, round: Round, digest: Digest) -> bool {
        s.digest_index.contains_key(digest) && s.digest_index[digest].round + 1 != round
    }

    /// The parents of a certificate of `round`, out of a list of digests. What the first round builds
    /// on is left out where it is unknown.
    pub open spec fn parent_texts(&self, s: StateView, round: Round, digests: Seq<Digest>) -> Seq<
        Text,
    >
        decreases digests.len(),
    {
        if digests.len() == 0 {
            seq![]
        } else {
            let earlier = self.parent_texts(s, round, digests.drop_last());
            let digest = digests.last();
            if self.is_weak(s, round, digest) {
                let p = s.digest_index[digest];
                earlier.push(weak_place_text(p.round, self.node_id(p.author)))
            } else if s.digest_index.contains_key(digest) || round != 1 {
                earlier.push(self.vertex_text(s, digest))
            } else {
                earlier
            }
        }
    }

    /// The parents at the end of weak links.
    pub open spec fn weak_texts(&self, s: StateView, round: Round, digests: Seq<Digest>) -> Seq<Text>
        decreases digests.len(),
    {
        if digests.len() == 0 {
            seq![]
        } else {
            let earlier = self.weak_texts(s, round, digests.drop_last());
            let digest = digests.last();
            if self.is_weak(s, round, digest) {
                let p = s.digest_index[digest];
                earlier.push(weak_place_text(p.round, self.node_id(p.author)))
            } else {
                earlier
            }
        }
    }

    /// A certificate of `round`: its node, its parents, its solid-wave vertices and its status.
    pub open spec fn entry_text(&self, s: StateView, round: Round, author: PublicKey) -> Text {
        let entry = s.dag[position(round, author)];
        let header = entry.certificate.header;
        let parents = ordered(header.parents);
        let weak = self.weak_texts(s, round, parents);
        let start = "(Vertex"@ + decimal(self.node_id(author) as nat) + ")"@ + "["@ + joined(
            self.parent_texts(s, round, parents),
            ", "@,
        ) + "]"@;
        let linked = if weak.len() == 0 {
            start
        } else {
            start + " weak=["@ + joined(weak, ", "@) + "]"@
        };
        linked + " (solid_wave_vertices: "@ + decimal(header.solid_wave_vertices.len()) + ")"@
            + named_list_text(
            " solid=["@,
            self.vertex_texts(s, ordered(header.solid_wave_vertices)),
        ) + named_list_text(
            " merged=["@,
            self.vertex_texts(s, ordered(header.solid_wave_vertices_merged)),
        ) + status_text(entry.status)
    }

    /// The certificates of a round, in the order of their authors.
    pub open spec fn round_text(&self, s: StateView, round: Round) -> Text {
        let entries = ordered(s.authors(round)).map_values(
            |a: PublicKey| self.entry_text(s, round, a),
        );
        "Round "@ + decimal(round as nat) + ":"@ + " "@ + joined(entries, " --- "@) + " "@
    }

    /// The rounds from `round` down to the first that have certificates.
    pub open spec fn dag_texts(&self, s: StateView, round: Round) -> Seq<Text>
        decreases round,
    {
        if round == 0 {
            seq![]
        } else {
            let later = if s.authors(round).len() == 0 {
                seq![]
            } else {
                seq![self.round_text(s, round)]
            };
            later + self.dag_texts(s, (round - 1) as Round)
        }
    }

    /// A set of digests as the vertices that they stand for, sorted.
    pub open spec fn digest_set_text(&self, s: StateView, digests: Set<Digest>) -> Text {
        joined(sorted_texts(self.vertex_texts(s, ordered(digests))), ", "@)
    }

    /// The round and the node of a place.
    fn write_place(&self, start: &str, p: DagPosition) -> (r: String)
        ensures
            r@ == start@ + decimal(p.round as nat) + ","@ + decimal(self.node_id(p.author) as nat)
                + "]"@,
    {
        let mut r: String = String::from_str(start);
        write_decimal(&mut r, p.round as u128);
        r.append(",");
        write_decimal(&mut r, self.author_to_node_id(p.author) as u128);
        r.append("]");
        r
    }

    /// The round and the node of the certificate with a digest or a header id.
    fn write_vertex(&self, state: &State, digest: &Digest) -> (r: String)
        ensures
            r@ == self.vertex_text(state@, *digest),
    {
        match self.find_certificate_in_dag(state, digest) {
            Some(p) => self.write_place("[", p),
            None => String::from_str("[?,?]"),
        }
    }

    /// The vertices of a set of digests.
    fn write_vertices(&self, state: &State, digests: &KeySet<Digest>) -> (r: Vec<String>)
        ensures
            texts(r@) == self.vertex_texts(state@, ordered(digests@)),
    {
        let list: Vec<Digest> = digests.to_vec();
        let ghost all = self.vertex_texts(state@, list@);
        let mut r: Vec<String> = Vec::new();
        let mut i: usize = 0;
        assert(texts(r@) =~= all.take(0));
        while i < list.len()
            invariant
                i <= list@.len(),
                all == self.vertex_texts(state@, list@),
                texts(r@) == all.take(i as int),
            decreases list@.len() - i,
        {
            let ghost held = texts(r@);
            let vertex: String = self.write_vertex(state, &list[i]);
            let ghost t = vertex@;
            r.push(vertex);
            proof {
                assert(texts(r@) =~= held.push(t));
                assert(all.take(i + 1) =~= all.take(i as int).push(all[i as int]));
            }
            i = i + 1;
        }
        assert(all.take(i as int) =~= all);
        r
    }

    /// A set of digests as the vertices that they stand for, sorted.
    pub fn render_digest_set(&self, state: &State, digests: &KeySet<Digest>) -> (r: String)
        ensures
            r@ == self.digest_set_text(state@, digests@),
    {
        let vertices: Vec<String> = self.write_vertices(state, digests);
        join(&sort_texts(vertices), ", ")
    }

    /// The parents of a certificate of `round`, and those at the end of weak links.
    fn write_parents(&self, state: &State, round: Round, parents: &KeySet<Digest>) -> (r: (
        Vec<String>,
        Vec<String>,
    ))
        ensures
            texts(r.0@) == self.parent_texts(state@, round, ordered(parents@)),
            texts(r.1@) == self.weak_texts(state@, round, ordered(parents@)),
    {
        let list: Vec<Digest> = parents.to_vec();
        let ghost s = state@;
        let mut links: Vec<String> = Vec::new();
        let mut weak: Vec<String> = Vec::new();
        let mut i: usize = 0;
        proof {
            assert(texts(links@) =~= self.parent_texts(s, round, list@.take(0)));
            assert(texts(weak@) =~= self.weak_texts(s, round, list@.take(0)));
        }
        while i < list.len()
            invariant
                i <= list@.len(),
                s == state@,
                texts(links@) == self.parent_texts(s, round, list@.take(i as int)),
                texts(weak@) == self.weak_texts(s, round, list@.take(i as int)),
            decreases list@.len() - i,
        {
            let digest: Digest = list[i];
            let ghost held = texts(links@);
            let ghost held_weak = texts(weak@);
            proof {
                assert(list@.take(i + 1).drop_last() =~= list@.take(i as int));
                assert(list@.take(i + 1).last() == digest);
            }
            match self.find_certificate_in_dag(state, &digest) {
                Some(p) => {
                    if p.round as u128 + 1 != round as u128 {
                        let entry: String = self.write_place("[w", p);
                        let ghost t = entry@;
                        links.push(entry.clone());
                        weak.push(entry);
                        assert(texts(links@) =~= held.push(t));
                        assert(texts(weak@) =~= held_weak.push(t));
                    } else {
                        let entry: String = self.write_place("[", p);
                        let ghost t = entry@;
                        links.push(entry);
                        assert(texts(links@) =~= held.push(t));
                    }
                },
                None => {
                    // What the first round builds on is the genesis, which need not be shown.
                    if round != 1 {
                        let entry: String = String::from_str("[?,?]");
                        let ghost t = entry@;
                        links.push(entry);
                        assert(texts(links@) =~= held.push(t));
                    }
                },
            }
            i = i + 1;
        }
        assert(list@.take(i as int) =~= list@);
        (links, weak)
    }

    /// A certificate of `round`.
    fn write_entry(&self, state: &State, round: Round, author: &PublicKey, entry: &DagEntry) -> (r:
        String)
        requires
            state@.dag.contains_key(position(round, *author)),
            entry@ == state@.dag[position(round, *author)],
        ensures
            r@ == self.entry_text(state@, round, *author),
    {
        let header: &Header = &entry.certificate.header;
        let (links, weak): (Vec<String>, Vec<String>) = self.write_parents(
            state,
            round,
            &header.parents,
        );
        let solid: Vec<String> = self.write_vertices(state, &header.solid_wave_vertices);
        let merged: Vec<String> = self.write_vertices(state, &header.solid_wave_vertices_merged);
        proof {
            assert(texts(weak@).len() == weak@.len());
            assert(texts(solid@).len() == solid@.len());
            assert(texts(merged@).len() == merged@.len());
        }
        let mut r: String = String::from_str("(Vertex");
        write_decimal(&mut r, self.author_to_node_id(*author) as u128);
        r.append(")");
        r.append("[");
        r.append(join(&links, ", ").as_str());
        r.append("]");
        if weak.len() > 0 {
            r.append(" weak=[");
            r.append(join(&weak, ", ").as_str());
            r.append("]");
        }
        r.append(" (solid_wave_vertices: ");
        write_decimal(&mut r, header.solid_wave_vertices.len() as u128);
        r.append(")");
        r.append(write_named_list(" solid=[", &solid).as_str());
        r.append(write_named_list(" merged=[", &merged).as_str());
        r.append(write_status(entry.status).as_str());
        r
    }

    /// The rounds of the DAG from `current_round` down to the first, one line for each that has
    /// certificates.
    pub fn visualize_dag(&self, state: &State, current_round: Round) -> (r: Vec<String>)
        ensures
            texts(r@) == self.dag_texts(state@, current_round),
    {
        let ghost s = state@;
        let ghost goal = self.dag_texts(s, current_round);
        let mut r: Vec<String> = Vec::new();
        let mut round: Round = current_round;
        assert(goal =~= texts(r@) + self.dag_texts(s, round));
        while round > 0
            invariant
                s == state@,
                goal == texts(r@) + self.dag_texts(s, round),
            decreases round,
        {
            let authors: Vec<PublicKey> = state.authors(round);
            let ghost held = texts(r@);
            proof {
                authors@.unique_seq_to_set();
            }
            if authors.len() > 0 {
                let line: String = self.write_round(state, round, &authors);
                let ghost t = line@;
                r.push(line);
                assert(texts(r@) =~= held + seq![t]);
            }
            proof {
                let rest = self.dag_texts(s, (round - 1) as Round);
                assert(goal =~= texts(r@) + rest);
            }
            round = round - 1;
        }
        assert(texts(r@) =~= goal);
        r
    }

    /// The certificates of a round.
    fn write_round(&self, state: &State, round: Round, authors: &Vec<PublicKey>) -> (r: String)
        requires
            authors@ == ordered(state@.authors(round)),
            authors@.to_set() == state@.authors(round),
        ensures
            r@ == self.round_text(state@, round),
    {
        let ghost s = state@;
        let ghost all = authors@.map_values(|a: PublicKey| self.entry_text(s, round, a));
        let mut vertices: Vec<String> = Vec::new();
        let mut i: usize = 0;
        assert(texts(vertices@) =~= all.take(0));
        while i < authors.len()
            invariant
                i <= authors@.len(),
                s == state@,
                authors@.to_set() == s.authors(round),
                all == authors@.map_values(|a: PublicKey| self.entry_text(s, round, a)),
                texts(vertices@) == all.take(i as int),
            decreases authors@.len() - i,
        {
            let author: PublicKey = authors[i];
            let ghost held = texts(vertices@);
            proof {
                assert(authors@.contains(author));
                assert(authors@.to_set().contains(author));
                assert(s.dag.contains_key(position(round, author)));
            }
            match state.entry(round, &author) {
                Some(entry) => {
                    let vertex: String = self.write_entry(state, round, &author, entry);
                    let ghost t = vertex@;
                    vertices.push(vertex);
                    assert(texts(vertices@) =~= held.push(t));
                },
                None => {},
            }
            proof {
                assert(all.take(i + 1) =~= all.take(i as int).push(all[i as int]));
            }
            i = i + 1;
        }
        assert(all.take(i as int) =~= all);
        let mut r: String = String::from_str("Round ");
        write_decimal(&mut r, round as u128);
        r.append(":");
        r.append(" ");
        r.append(join(&vertices, " --- ").as_str());
        r.append(" ");
        r
    }
}

/// A list under a name, or nothing for an empty list.
fn write_named_list(name: &str, list: &Vec<String>) -> (r: String)
    ensures
        r@ == named_list_text(name@, texts(list@)),
{
    assert(texts(list@).len() == list@.len());
    if list.len() == 0 {
        String::from_str("")
    } else {
        let mut r: String = String::from_str(name);
        r.append(join(list, ", ").as_str());
        r.append("]");
        r
    }
}

/// What has been decided of a certificate.
fn write_status(status: CommitStatus) -> (r: String)
    ensures
        r@ == status_text(status),
{
    match status {
        CommitStatus::OneValent => String::from_str(" one-valent"),
        CommitStatus::ZeroValent => String::from_str(" zero-valent"),
        CommitStatus::Bivalent => String::from_str(" bivalent"),
        CommitStatus::Pending => String::from_str(""),
    }
}

impl Header {
    /// The header in full, given its id and its author as text: its round, and the bytes of the digests
    /// of its payload.
    pub fn debug_text(&self, id: &str, author: &str) -> (r: String)
        ensures
            r@ == id@ + ": B"@ + decimal(self@.round as nat) + "("@ + author@ + ", "@ + decimal(
                self@.payload.len() * 32,
            ) + ")"@,
    {
        let size: u128 = self.payload.len() as u128 * 32;
        let mut r: String = String::from_str(id);
        r.append(": B");
        write_decimal(&mut r, self.round as u128);
        r.append("(");
        r.append(author);
        r.append(", ");
        write_decimal(&mut r, size);
        r.append(")");
        r
    }

    /// The header in short, given its author as text.
    pub fn display_text(&self, author: &str) -> (r: String)
        ensures
            r@ == "B"@ + decimal(self@.round as nat) + "("@ + author@ + ")"@,
    {
        let mut r: String = String::from_str("B");
        write_decimal(&mut r, self.round as u128);
        r.append("(");
        r.append(author);
        r.append(")");
        r
    }
}

impl Vote {
    /// The vote, given its digest, its author and the id of its header as text.
    pub fn debug_text(&self, digest: &str, author: &str, id: &str) -> (r: String)
        ensures
            r@ == digest@ + ": V"@ + decimal(self.round as nat) + "("@ + author@ + ", "@ + id@
                + ")"@,
    {
        let mut r: String = String::from_str(digest);
        r.append(": V");
        write_decimal(&mut r, self.round as u128);
        r.append("(");
        r.append(author);
        r.append(", ");
        r.append(id);
        r.append(")");
        r
    }
}

impl Certificate {
    /// The certificate, given its digest, its author and the id of its header as text.
    pub fn debug_text(&self, digest: &str, origin: &str, id: &str) -> (r: String)
        ensures
            r@ == digest@ + ": C"@ + decimal(self@.round() as nat) + "("@ + origin@ + ", "@ + id@
                + ")"@,
    {
        let mut r: String = String::from_str(digest);
        r.append(": C");
        write_decimal(&mut r, self.round() as u128);
        r.append("(");
        r.append(origin);
        r.append(", ");
        r.append(id);
        r.append(")");
        r
    }
}

impl Core {
    /// The round and the node of a vertex.
    pub fn step_vertex_label(&self, round: Round, author: &PublicKey) -> (r: String)
        ensures
            r@ == place_text(
                round,
                match self@.committee.node_of(*author) {
                    Some(node) => node,
                    None => UNKNOWN_NODE,
                },
            ),
    {
        let node: usize = match self.node_index(author) {
            Some(i) => i,
            None => UNKNOWN_NODE,
        };
        let mut r: String = String::from_str("[");
        write_decimal(&mut r, round as u128);
        r.append(",");
        write_decimal(&mut r, node as u128);
        r.append("]");
        r
    }
}

/// How the solid-step vertices of a proposal arrived.
pub struct Provenance {
    pub direct_weak_only: Vec<Digest>,
    pub relay_only: Vec<Digest>,
    pub both: Vec<Digest>,
}

impl ProposalParents {
    /// The solid-step vertices by the way that they arrived, each list in increasing order.
    pub fn provenance(&self) -> (r: Provenance)
        ensures
            r.direct_weak_only@ == ordered(self@.solid_step_sources.dom()).filter(
                |d: Digest|
                    self@.solid_step_sources[d].direct_weak
                        && !self@.solid_step_sources[d].relay_merged,
            ),
            r.relay_only@ == ordered(self@.solid_step_sources.dom()).filter(
                |d: Digest|
                    self@.solid_step_sources[d].relay_merged
                        && !self@.solid_step_sources[d].direct_weak,
            ),
            r.both@ == ordered(self@.solid_step_sources.dom()).filter(
                |d: Digest|
                    self@.solid_step_sources[d].direct_weak
                        && self@.solid_step_sources[d].relay_merged,
            ),
    {
        let ghost sources = self@.solid_step_sources;
        let ghost is_weak = |d: Digest| sources[d].direct_weak && !sources[d].relay_merged;
        let ghost is_relay = |d: Digest| sources[d].relay_merged && !sources[d].direct_weak;
        let ghost is_both = |d: Digest| sources[d].direct_weak && sources[d].relay_merged;
        let list: Vec<Digest> = self.solid_step_sources.key_list();
        let mut weak: Vec<Digest> = Vec::new();
        let mut relay: Vec<Digest> = Vec::new();
        let mut both: Vec<Digest> = Vec::new();
        let mut i: usize = 0;
        proof {
            reveal(Seq::filter);
            assert(weak@ =~= list@.take(0).filter(is_weak));
            assert(relay@ =~= list@.take(0).filter(is_relay));
            assert(both@ =~= list@.take(0).filter(is_both));
        }
        while i < list.len()
            invariant
                i <= list@.len(),
                sources == self@.solid_step_sources,
                forall|d: Digest| #[trigger] list@.contains(d) == sources.contains_key(d),
                is_weak == (|d: Digest| sources[d].direct_weak && !sources[d].relay_merged),
                is_relay == (|d: Digest| sources[d].relay_merged && !sources[d].direct_weak),
                is_both == (|d: Digest| sources[d].direct_weak && sources[d].relay_merged),
                weak@ == list@.take(i as int).filter(is_weak),
                relay@ == list@.take(i as int).filter(is_relay),
                both@ == list@.take(i as int).filter(is_both),
            decreases list@.len() - i,
        {
            let digest: Digest = list[i];
            assert(list@.contains(digest));
            match self.solid_step_sources.get(&digest) {
                Some(source) => {
                    if source.is_both() {
                        both.push(digest);
                    } else if source.is_direct_weak_only() {
                        weak.push(digest);
                    } else if source.is_relay_only() {
                        relay.push(digest);
                    }
                },
                None => {},
            }
            proof {
                reveal(Seq::filter);
                assert(list@.take(i + 1).drop_last() =~= list@.take(i as int));
                assert(list@.take(i + 1).last() == digest);
            }
            i = i + 1;
        }
        assert(list@.take(i as int) =~= list@);
        Provenance { direct_weak_only: weak, relay_only: relay, both }
    }
}

} // verus!
