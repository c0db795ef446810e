use vstd::prelude::*;

use crate::cycle_detection::id_seq;
use crate::types::{
    Contradiction,
    LogicalGraph,
    Proposition,
    PropositionKind,
    Relationship,
    RelationshipKind,
    find_index,
    incoming_positions,
    lookup,
    support_count,
};

verus! {

/// The counts a proposition's robustness score is computed from.
#[derive(Debug)]
pub struct ScoreCounts {
    pub proposition_id: String,
    pub evidence_paths: usize,
    pub contradiction_count: usize,
    pub vulnerable_assumptions: u128,
}

/// A load-bearing assumption with no `supports` edge.
pub open spec fn is_vulnerable(g: LogicalGraph, q: Proposition) -> bool {
    q.prop_type == PropositionKind::Assumption && q.is_load_bearing && support_count(
        g.relationships@,
        q.id@,
    ) == 0
}

pub open spec fn is_dependency_link(r: Relationship) -> bool {
    r.rel_type == RelationshipKind::DependsOn || r.rel_type == RelationshipKind::Assumes
}

/// The `depends_on` and `assumes` edges at `id` (leaving it when `outgoing`, else entering
/// it) whose other end is a vulnerable assumption.
pub open spec fn vulnerable_links(g: LogicalGraph, id: Seq<char>, outgoing: bool) -> Seq<Relationship> {
    g.relationships@.filter(
        |r: Relationship|
            {
                let here = if outgoing {
                    r.from_id@
                } else {
                    r.to_id@
                };
                let there = if outgoing {
                    r.to_id@
                } else {
                    r.from_id@
                };
                here == id && is_dependency_link(r) && lookup(g.propositions@, there) is Some
                    && is_vulnerable(g, g.propositions@[lookup(g.propositions@, there).unwrap()])
            },
    )
}

/// Vulnerable assumptions next to `id` through `depends_on` or `assumes` edges, counted per
/// edge in both directions.
pub open spec fn vulnerable_count(g: LogicalGraph, id: Seq<char>) -> nat {
    vulnerable_links(g, id, true).len() + vulnerable_links(g, id, false).len()
}

/// Number of contradiction records that involve `id`.
pub open spec fn contradiction_count(cs: Seq<Contradiction>, id: Seq<char>) -> nat {
    cs.filter(|c: Contradiction| id_seq(c.proposition_ids@).contains(id)).len()
}

/// Whether the proposition at position `q` is a vulnerable assumption.
fn vulnerable_at(graph: &LogicalGraph, q: usize) -> (r: bool)
    requires
        q < graph.propositions@.len(),
    ensures
        r == is_vulnerable(*graph, graph.propositions@[q as int]),
{
    let p = &graph.propositions[q];
    if p.prop_type == PropositionKind::Assumption && p.is_load_bearing {
        let s = incoming_positions(graph, &p.id, RelationshipKind::Supports, RelationshipKind::Supports);
        proof {
            assert(s@.map_values(|w: usize| graph.relationships@[w as int]).len() == s@.len());
        }
        s.len() == 0
    } else {
        false
    }
}

fn count_links(graph: &LogicalGraph, id: &String, outgoing: bool) -> (r: usize)
    ensures
        r == vulnerable_links(*graph, id@, outgoing).len(),
{
    let ghost rels = graph.relationships@;
    let ghost pred = |r: Relationship|
        {
            let here = if outgoing {
                r.from_id@
            } else {
                r.to_id@
            };
            let there = if outgoing {
                r.to_id@
            } else {
                r.from_id@
            };
            here == id@ && is_dependency_link(r) && lookup(graph.propositions@, there) is Some
                && is_vulnerable(*graph, graph.propositions@[lookup(graph.propositions@, there).unwrap()])
        };
    let mut n: usize = 0;
    let mut i: usize = 0;
    while i < graph.relationships.len()
        invariant
            rels == graph.relationships@,
            pred == (|r: Relationship|
                {
                    let here = if outgoing {
                        r.from_id@
                    } else {
                        r.to_id@
                    };
                    let there = if outgoing {
                        r.to_id@
                    } else {
                        r.from_id@
                    };
                    here == id@ && is_dependency_link(r) && lookup(graph.propositions@, there) is Some
                        && is_vulnerable(
                        *graph,
                        graph.propositions@[lookup(graph.propositions@, there).unwrap()],
                    )
                }),
            i <= rels.len(),
            n == rels.take(i as int).filter(pred).len(),
            n <= i,
        decreases rels.len() - i,
    {
        proof {
            crate::types::lemma_take_filter_step(rels, i as int, pred);
        }
        let rel = &graph.relationships[i];
        let (here, there) = if outgoing {
            (&rel.from_id, &rel.to_id)
        } else {
            (&rel.to_id, &rel.from_id)
        };
        if *here == *id && (rel.rel_type == RelationshipKind::DependsOn || rel.rel_type
            == RelationshipKind::Assumes) {
            match find_index(&graph.propositions, there) {
                Some(q) => {
                    if vulnerable_at(graph, q) {
                        n = n + 1;
                    }
                },
                None => {},
            }
        }
        i = i + 1;
    }
    proof {
        assert(rels.take(i as int) =~= rels);
    }
    n
}

/// Vulnerable assumptions next to `prop_id`: for every `depends_on` or `assumes` edge that
/// leaves or enters it, one when the proposition at the other end is a load-bearing
/// assumption with no `supports` edge.
pub fn count_vulnerable_assumptions(graph: &LogicalGraph, prop_id: &String) -> (r: u128)
    ensures
        r as nat == vulnerable_count(*graph, prop_id@),
{
    let a = count_links(graph, prop_id, true);
    let b = count_links(graph, prop_id, false);
    a as u128 + b as u128
}

} // verus!

verus! {

/// Number of records in `cs` that involve `id`.
fn count_contradictions(cs: &Vec<Contradiction>, id: &String) -> (r: usize)
    ensures
        r == contradiction_count(cs@, id@),
{
    let ghost pred = |c: Contradiction| id_seq(c.proposition_ids@).contains(id@);
    let mut n: usize = 0;
    let mut i: usize = 0;
    while i < cs.len()
        invariant
            pred == (|c: Contradiction| id_seq(c.proposition_ids@).contains(id@)),
            i <= cs@.len(),
            n == cs@.take(i as int).filter(pred).len(),
            n <= i,
        decreases cs.len() - i,
    {
        proof {
            crate::types::lemma_take_filter_step(cs@, i as int, pred);
        }
        let ids = &cs[i].proposition_ids;
        let mut found = false;
        let mut k: usize = 0;
        while k < ids.len()
            invariant
                k <= ids@.len(),
                found == exists|t: int| 0 <= t < k && ids@[t]@ == id@,
            decreases ids.len() - k,
        {
            if ids[k] == *id {
                found = true;
            }
            k = k + 1;
        }
        proof {
            if found {
                let t = choose|t: int| 0 <= t < k && ids@[t]@ == id@;
                assert(id_seq(ids@)[t] == id@);
            }
            if id_seq(ids@).contains(id@) {
                let t = choose|t: int| 0 <= t < id_seq(ids@).len() && id_seq(ids@)[t] == id@;
                assert(ids@[t]@ == id@);
            }
        }
        if found {
            n = n + 1;
        }
        i = i + 1;
    }
    proof {
        assert(cs@.take(i as int) =~= cs@);
    }
    n
}

/// The counts of `p`'s score record.
pub open spec fn counts_for(g: LogicalGraph, cs: Seq<Contradiction>, p: Proposition, r: ScoreCounts) -> bool {
    &&& r.proposition_id@ == p.id@
    &&& r.evidence_paths as nat == support_count(g.relationships@, p.id@)
    &&& r.contradiction_count as nat == contradiction_count(cs, p.id@)
    &&& r.vulnerable_assumptions as nat == vulnerable_count(g, p.id@)
}

/// One record per proposition, in input order: its identifier, the `supports` edges into it,
/// the contradictions that involve it, and the vulnerable assumptions next to it.
pub fn argument_counts(graph: &LogicalGraph, contradictions: &Vec<Contradiction>) -> (r: Vec<ScoreCounts>)
    ensures
        r@.len() == graph.propositions@.len(),
        forall|i: int|
            0 <= i < r@.len() ==> counts_for(*graph, contradictions@, graph.propositions@[i], #[trigger] r@[i]),
{
    let mut out: Vec<ScoreCounts> = Vec::new();
    let mut i: usize = 0;
    while i < graph.propositions.len()
        invariant
            i <= graph.propositions@.len(),
            out@.len() == i,
            forall|k: int|
                0 <= k < i ==> counts_for(*graph, contradictions@, graph.propositions@[k], #[trigger] out@[k]),
        decreases graph.propositions.len() - i,
    {
        let p = &graph.propositions[i];
        let sup = incoming_positions(graph, &p.id, RelationshipKind::Supports, RelationshipKind::Supports);
        proof {
            assert(sup@.map_values(|w: usize| graph.relationships@[w as int]).len() == sup@.len());
        }
        let rec = ScoreCounts {
            proposition_id: p.id.clone(),
            evidence_paths: sup.len(),
            contradiction_count: count_contradictions(contradictions, &p.id),
            vulnerable_assumptions: count_vulnerable_assumptions(graph, &p.id),
        };
        out.push(rec);
        i = i + 1;
    }
    out
}

} // verus!
