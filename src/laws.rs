use vstd::prelude::*;

use crate::bias_detector::{
    anchoring_core,
    availability_core,
    bias_cores,
    bias_cores_of,
    confirmation_core,
    per_position,
    planning_core,
    substitution_core,
    substitution_row,
    BiasCore,
};
use crate::contradiction::{
    cores_of,
    explicit_cores,
    logical_core,
    logical_cores,
    numeric_neighbours,
    pair_row,
    pairs_upto,
    resource_core,
    resource_cores,
    temporal_core,
    temporal_cores,
    time_props,
    ContradictionCore,
};
use crate::cycle_detection::{id_seq, ids_at, is_dependency_cycle, is_rotation, names_dependency_cycle, rotated, rotation_free};
use crate::topo_sort::{is_topological, topological_order_respects_dependencies};
use crate::fallacy_detector::{
    authority_core,
    circular_cores,
    dilemma_core,
    fallacy_cores,
    fallacy_cores_of,
    hasty_core,
    per_proposition,
    resolved_supporters,
    FallacyCore,
};
use crate::types::{
    BiasSeverity,
    CognitiveBias,
    Contradiction,
    Fallacy,
    LogicalGraph,
    Proposition,
    dep_edge_before,
    is_dependency,
    lemma_lookup_spec,
    lookup,
    supporter_ids,
};

verus! {

/// `id` names a proposition of `g`.
pub open spec fn names_proposition(g: LogicalGraph, id: Seq<char>) -> bool {
    lookup(g.propositions@, id) is Some
}

/// Both ends of every relationship name propositions.
pub open spec fn endpoints_valid(g: LogicalGraph) -> bool {
    forall|w: int|
        0 <= w < g.relationships@.len() ==> names_proposition(g, (#[trigger] g.relationships@[w]).from_id@)
            && names_proposition(g, g.relationships@[w].to_id@)
}

proof fn lemma_own_id_named(g: LogicalGraph, p: Proposition)
    requires
        g.propositions@.contains(p),
    ensures
        names_proposition(g, p.id@),
{
    let i = choose|i: int| 0 <= i < g.propositions@.len() && g.propositions@[i] == p;
    lemma_lookup_spec(g.propositions@, p.id@);
}

proof fn lemma_supporters_named(g: LogicalGraph, id: Seq<char>)
    requires
        endpoints_valid(g),
    ensures
        forall|t: int|
            0 <= t < supporter_ids(g.relationships@, id).len() ==> names_proposition(
                g,
                #[trigger] supporter_ids(g.relationships@, id)[t],
            ),
{
    broadcast use Seq::lemma_filter_contains_rev;

    let es = crate::types::support_edges(g.relationships@, id);
    assert forall|t: int| 0 <= t < supporter_ids(g.relationships@, id).len() implies names_proposition(
        g,
        #[trigger] supporter_ids(g.relationships@, id)[t],
    ) by {
        assert(es.contains(es[t]));
        assert(g.relationships@.contains(es[t]));
        let w = choose|w: int| 0 <= w < g.relationships@.len() && g.relationships@[w] == es[t];
        assert(names_proposition(g, g.relationships@[w].from_id@));
    }
}

/// Every identifier of every contradiction core names a proposition.
pub open spec fn contradiction_ids_named(g: LogicalGraph, cs: Seq<ContradictionCore>) -> bool {
    forall|k: int, t: int| 0 <= k < cs.len() && 0 <= t < cs[k].0.len() ==> names_proposition(g, #[trigger] cs[k].0[t])
}

proof fn lemma_cnamed_append(g: LogicalGraph, a: Seq<ContradictionCore>, b: Seq<ContradictionCore>)
    requires
        contradiction_ids_named(g, a),
        contradiction_ids_named(g, b),
    ensures
        contradiction_ids_named(g, a + b),
{
    assert forall|k: int, t: int| 0 <= k < (a + b).len() && 0 <= t < (a + b)[k].0.len() implies names_proposition(
        g,
        #[trigger] (a + b)[k].0[t],
    ) by {
        if k < a.len() {
            assert((a + b)[k] == a[k]);
        } else {
            assert((a + b)[k] == b[k - a.len()]);
        }
    }
}

proof fn lemma_explicit_named(g: LogicalGraph, k: int)
    ensures
        contradiction_ids_named(g, explicit_cores(g, k)),
    decreases k,
{
    if k > 0 && k <= g.relationships@.len() {
        lemma_explicit_named(g, k - 1);
        let prev = explicit_cores(g, k - 1);
        let cur = explicit_cores(g, k);
        assert forall|q: int, t: int| 0 <= q < cur.len() && 0 <= t < cur[q].0.len() implies names_proposition(
            g,
            #[trigger] cur[q].0[t],
        ) by {
            if q < prev.len() {
                assert(cur[q] == prev[q]);
            }
        }
    }
}

proof fn lemma_pairs_named(
    g: LogicalGraph,
    s: Seq<Proposition>,
    k: int,
    f: spec_fn(Proposition, Proposition) -> Seq<ContradictionCore>,
)
    requires
        forall|i: int| 0 <= i < s.len() ==> g.propositions@.contains(#[trigger] s[i]),
        forall|a: Proposition, b: Proposition|
            g.propositions@.contains(a) && g.propositions@.contains(b) ==> contradiction_ids_named(
                g,
                #[trigger] f(a, b),
            ),
    ensures
        contradiction_ids_named(g, pairs_upto(s, k, f)),
    decreases k,
{
    if k > 0 && k <= s.len() {
        lemma_pairs_named(g, s, k - 1, f);
        lemma_row_named(g, s, k - 1, s.len() as int, f);
        lemma_cnamed_append(g, pairs_upto(s, k - 1, f), pair_row(s, k - 1, s.len() as int, f));
    }
}

proof fn lemma_row_named(
    g: LogicalGraph,
    s: Seq<Proposition>,
    i: int,
    k: int,
    f: spec_fn(Proposition, Proposition) -> Seq<ContradictionCore>,
)
    requires
        forall|x: int| 0 <= x < s.len() ==> g.propositions@.contains(#[trigger] s[x]),
        forall|a: Proposition, b: Proposition|
            g.propositions@.contains(a) && g.propositions@.contains(b) ==> contradiction_ids_named(
                g,
                #[trigger] f(a, b),
            ),
    ensures
        contradiction_ids_named(g, pair_row(s, i, k, f)),
    decreases k,
{
    if !(i < 0 || k <= i + 1 || k > s.len()) {
        lemma_row_named(g, s, i, k - 1, f);
        assert(contradiction_ids_named(g, f(s[i], s[k - 1])));
        lemma_cnamed_append(g, pair_row(s, i, k - 1, f), f(s[i], s[k - 1]));
    }
}

proof fn lemma_pair_cores_named(g: LogicalGraph)
    ensures
        forall|a: Proposition, b: Proposition|
            g.propositions@.contains(a) && g.propositions@.contains(b) ==> contradiction_ids_named(
                g,
                #[trigger] temporal_core(a, b),
            ),
        forall|a: Proposition, b: Proposition|
            g.propositions@.contains(a) && g.propositions@.contains(b) ==> contradiction_ids_named(
                g,
                #[trigger] logical_core(a, b),
            ),
{
    assert forall|a: Proposition, b: Proposition|
        g.propositions@.contains(a) && g.propositions@.contains(b) implies contradiction_ids_named(
        g,
        #[trigger] temporal_core(a, b),
    ) by {
        lemma_own_id_named(g, a);
        lemma_own_id_named(g, b);
    }
    assert forall|a: Proposition, b: Proposition|
        g.propositions@.contains(a) && g.propositions@.contains(b) implies contradiction_ids_named(
        g,
        #[trigger] logical_core(a, b),
    ) by {
        lemma_own_id_named(g, a);
        lemma_own_id_named(g, b);
    }
}

proof fn lemma_resource_named(g: LogicalGraph, k: int)
    ensures
        contradiction_ids_named(g, resource_cores(g, k)),
    decreases k,
{
    broadcast use Seq::lemma_filter_contains_rev;

    if k > 0 && k <= g.propositions@.len() {
        lemma_resource_named(g, k - 1);
        let p = g.propositions@[k - 1];
        assert(g.propositions@.contains(p));
        lemma_own_id_named(g, p);
        let nb = numeric_neighbours(g, p);
        assert forall|t: int| 0 <= t < nb.len() implies names_proposition(g, #[trigger] nb[t].id@) by {
            assert(nb.contains(nb[t]));
            lemma_own_id_named(g, nb[t]);
        }
        let rc = resource_core(g, p);
        assert forall|q: int, t: int| 0 <= q < rc.len() && 0 <= t < rc[q].0.len() implies names_proposition(
            g,
            #[trigger] rc[q].0[t],
        ) by {
            if t > 0 {
                assert(rc[q].0[t] == nb[t - 1].id@);
            }
        }
        lemma_cnamed_append(g, resource_cores(g, k - 1), rc);
    }
}

/// Every proposition identifier in the contradiction records names a proposition of the graph.
pub proof fn contradiction_ids_present(g: LogicalGraph, cs: Seq<Contradiction>)
    requires
        cores_of(cs) == explicit_cores(g, g.relationships@.len() as int) + temporal_cores(g)
            + logical_cores(g) + resource_cores(g, g.propositions@.len() as int),
    ensures
        forall|k: int, t: int|
            0 <= k < cs.len() && 0 <= t < cs[k].proposition_ids@.len() ==> names_proposition(
                g,
                #[trigger] cs[k].proposition_ids@[t]@,
            ),
{
    broadcast use Seq::lemma_filter_contains_rev;

    lemma_explicit_named(g, g.relationships@.len() as int);
    lemma_pair_cores_named(g);
    let tp = time_props(g);
    assert forall|i: int| 0 <= i < tp.len() implies g.propositions@.contains(#[trigger] tp[i]) by {
        assert(tp.contains(tp[i]));
    }
    let ft = |a: Proposition, b: Proposition| temporal_core(a, b);
    let fl = |a: Proposition, b: Proposition| logical_core(a, b);
    assert forall|a: Proposition, b: Proposition|
        g.propositions@.contains(a) && g.propositions@.contains(b) implies contradiction_ids_named(
        g,
        #[trigger] ft(a, b),
    ) by {
        assert(ft(a, b) == temporal_core(a, b));
    }
    assert forall|a: Proposition, b: Proposition|
        g.propositions@.contains(a) && g.propositions@.contains(b) implies contradiction_ids_named(
        g,
        #[trigger] fl(a, b),
    ) by {
        assert(fl(a, b) == logical_core(a, b));
    }
    assert forall|i: int| 0 <= i < g.propositions@.len() implies g.propositions@.contains(#[trigger] g.propositions@[i]) by {}
    lemma_pairs_named(g, tp, tp.len() as int, ft);
    lemma_pairs_named(
        g,
        g.propositions@,
        g.propositions@.len() as int,
        fl,
    );
    lemma_resource_named(g, g.propositions@.len() as int);
    let e = explicit_cores(g, g.relationships@.len() as int);
    lemma_cnamed_append(g, e, temporal_cores(g));
    lemma_cnamed_append(g, e + temporal_cores(g), logical_cores(g));
    lemma_cnamed_append(
        g,
        e + temporal_cores(g) + logical_cores(g),
        resource_cores(g, g.propositions@.len() as int),
    );
    assert forall|k: int, t: int|
        0 <= k < cs.len() && 0 <= t < cs[k].proposition_ids@.len() implies names_proposition(
        g,
        #[trigger] cs[k].proposition_ids@[t]@,
    ) by {
        assert(cores_of(cs)[k].0[t] == cs[k].proposition_ids@[t]@);
    }
}

/// Every identifier of every fallacy core names a proposition.
pub open spec fn fallacy_ids_named(g: LogicalGraph, fs: Seq<FallacyCore>) -> bool {
    forall|k: int, t: int| 0 <= k < fs.len() && 0 <= t < fs[k].0.len() ==> names_proposition(g, #[trigger] fs[k].0[t])
}

proof fn lemma_fnamed_append(g: LogicalGraph, a: Seq<FallacyCore>, b: Seq<FallacyCore>)
    requires
        fallacy_ids_named(g, a),
        fallacy_ids_named(g, b),
    ensures
        fallacy_ids_named(g, a + b),
{
    assert forall|k: int, t: int| 0 <= k < (a + b).len() && 0 <= t < (a + b)[k].0.len() implies names_proposition(
        g,
        #[trigger] (a + b)[k].0[t],
    ) by {
        if k < a.len() {
            assert((a + b)[k] == a[k]);
        } else {
            assert((a + b)[k] == b[k - a.len()]);
        }
    }
}

proof fn lemma_per_proposition_named(g: LogicalGraph, k: int, f: spec_fn(Proposition) -> Seq<FallacyCore>)
    requires
        forall|i: int| 0 <= i < g.propositions@.len() ==> fallacy_ids_named(g, #[trigger] f(g.propositions@[i])),
    ensures
        fallacy_ids_named(g, per_proposition(g.propositions@, k, f)),
    decreases k,
{
    if k > 0 && k <= g.propositions@.len() {
        lemma_per_proposition_named(g, k - 1, f);
        assert(fallacy_ids_named(g, f(g.propositions@[k - 1])));
        lemma_fnamed_append(g, per_proposition(g.propositions@, k - 1, f), f(g.propositions@[k - 1]));
    }
}

proof fn lemma_fallacy_kinds_named(g: LogicalGraph, i: int)
    requires
        endpoints_valid(g),
        0 <= i < g.propositions@.len(),
    ensures
        fallacy_ids_named(g, hasty_core(g, g.propositions@[i])),
        fallacy_ids_named(g, dilemma_core(g, g.propositions@[i])),
        fallacy_ids_named(g, authority_core(g, g.propositions@[i])),
{
    broadcast use Seq::lemma_filter_contains_rev;

    let p = g.propositions@[i];
    assert(g.propositions@.contains(p));
    lemma_own_id_named(g, p);
    lemma_supporters_named(g, p.id@);
    let ss = supporter_ids(g.relationships@, p.id@);
    let h = hasty_core(g, p);
    assert forall|k: int, t: int| 0 <= k < h.len() && 0 <= t < h[k].0.len() implies names_proposition(
        g,
        #[trigger] h[k].0[t],
    ) by {
        if t > 0 {
            assert(h[k].0[t] == ss[t - 1]);
        }
    }
    let rs = resolved_supporters(g, p.id@);
    let d = dilemma_core(g, p);
    assert forall|k: int, t: int| 0 <= k < d.len() && 0 <= t < d[k].0.len() implies names_proposition(
        g,
        #[trigger] d[k].0[t],
    ) by {
        if t > 0 {
            assert(d[k].0[t] == rs[t - 1]);
            Seq::lemma_filter_pred(ss, |x: Seq<char>| lookup(g.propositions@, x) is Some, t - 1);
        }
    }
}

/// Every identifier in the fallacy records names a proposition of the graph, when every
/// relationship's ends do and the cycles handed in name dependency cycles.
pub proof fn fallacy_ids_present(g: LogicalGraph, cycles: Seq<Vec<String>>, fs: Seq<Fallacy>)
    requires
        endpoints_valid(g),
        forall|k: int| 0 <= k < cycles.len() ==> names_dependency_cycle(g, id_seq(#[trigger] cycles[k]@)),
        fallacy_cores_of(fs) == fallacy_cores(g, cycles),
    ensures
        forall|k: int, t: int|
            0 <= k < fs.len() && 0 <= t < fs[k].affected_node_ids@.len() ==> names_proposition(
                g,
                #[trigger] fs[k].affected_node_ids@[t]@,
            ),
{
    let n = g.propositions@.len() as int;
    let cc = circular_cores(cycles);
    assert forall|k: int, t: int| 0 <= k < cc.len() && 0 <= t < cc[k].0.len() implies names_proposition(
        g,
        #[trigger] cc[k].0[t],
    ) by {
        assert(names_dependency_cycle(g, id_seq(cycles[k]@)));
        let c = choose|c: Seq<usize>| is_dependency_cycle(g, c) && ids_at(g, c) == id_seq(cycles[k]@);
        assert(cc[k].0 == ids_at(g, c));
        assert(g.propositions@.contains(g.propositions@[c[t] as int]));
        lemma_own_id_named(g, g.propositions@[c[t] as int]);
    }
    let fh = |p: Proposition| hasty_core(g, p);
    let fd = |p: Proposition| dilemma_core(g, p);
    let fa = |p: Proposition| authority_core(g, p);
    assert forall|i: int| 0 <= i < n implies fallacy_ids_named(g, #[trigger] fh(g.propositions@[i])) by {
        lemma_fallacy_kinds_named(g, i);
    }
    assert forall|i: int| 0 <= i < n implies fallacy_ids_named(g, #[trigger] fd(g.propositions@[i])) by {
        lemma_fallacy_kinds_named(g, i);
    }
    assert forall|i: int| 0 <= i < n implies fallacy_ids_named(g, #[trigger] fa(g.propositions@[i])) by {
        lemma_fallacy_kinds_named(g, i);
    }
    lemma_per_proposition_named(g, n, fh);
    lemma_per_proposition_named(g, n, fd);
    lemma_per_proposition_named(g, n, fa);
    lemma_fnamed_append(g, cc, per_proposition(g.propositions@, n, fh));
    lemma_fnamed_append(g, cc + per_proposition(g.propositions@, n, fh), per_proposition(g.propositions@, n, fd));
    lemma_fnamed_append(
        g,
        cc + per_proposition(g.propositions@, n, fh) + per_proposition(g.propositions@, n, fd),
        per_proposition(g.propositions@, n, fa),
    );
    assert forall|k: int, t: int|
        0 <= k < fs.len() && 0 <= t < fs[k].affected_node_ids@.len() implies names_proposition(
        g,
        #[trigger] fs[k].affected_node_ids@[t]@,
    ) by {
        assert(fallacy_cores_of(fs)[k].0[t] == fs[k].affected_node_ids@[t]@);
    }
}

/// Every identifier of every bias core names a proposition.
pub open spec fn bias_ids_named(g: LogicalGraph, bs: Seq<BiasCore>) -> bool {
    forall|k: int, t: int| 0 <= k < bs.len() && 0 <= t < bs[k].0.len() ==> names_proposition(g, #[trigger] bs[k].0[t])
}

proof fn lemma_bnamed_append(g: LogicalGraph, a: Seq<BiasCore>, b: Seq<BiasCore>)
    requires
        bias_ids_named(g, a),
        bias_ids_named(g, b),
    ensures
        bias_ids_named(g, a + b),
{
    assert forall|k: int, t: int| 0 <= k < (a + b).len() && 0 <= t < (a + b)[k].0.len() implies names_proposition(
        g,
        #[trigger] (a + b)[k].0[t],
    ) by {
        if k < a.len() {
            assert((a + b)[k] == a[k]);
        } else {
            assert((a + b)[k] == b[k - a.len()]);
        }
    }
}

proof fn lemma_per_position_named(g: LogicalGraph, k: int, f: spec_fn(int) -> Seq<BiasCore>)
    requires
        k <= g.propositions@.len(),
        forall|i: int| 0 <= i < g.propositions@.len() ==> bias_ids_named(g, #[trigger] f(i)),
    ensures
        bias_ids_named(g, per_position(k, f)),
    decreases k,
{
    if k > 0 {
        lemma_per_position_named(g, k - 1, f);
        assert(bias_ids_named(g, f(k - 1)));
        lemma_bnamed_append(g, per_position(k - 1, f), f(k - 1));
    }
}

proof fn lemma_substitution_row_named(g: LogicalGraph, bands: Seq<BiasSeverity>, i: int, k: int)
    requires
        0 <= i < g.propositions@.len(),
    ensures
        bias_ids_named(g, substitution_row(g, bands, i, k)),
    decreases k,
{
    let p = g.propositions@[i];
    let ss = supporter_ids(g.relationships@, p.id@);
    if k > 0 && k <= ss.len() {
        lemma_substitution_row_named(g, bands, i, k - 1);
        assert(g.propositions@.contains(p));
        lemma_own_id_named(g, p);
        match lookup(g.propositions@, ss[k - 1]) {
            Some(qi) => {
                lemma_lookup_spec(g.propositions@, ss[k - 1]);
                let q = g.propositions@[qi];
                assert(g.propositions@.contains(q));
                lemma_own_id_named(g, q);
                let prev = substitution_row(g, bands, i, k - 1);
                let cur = substitution_row(g, bands, i, k);
                assert forall|a: int, t: int| 0 <= a < cur.len() && 0 <= t < cur[a].0.len() implies names_proposition(
                    g,
                    #[trigger] cur[a].0[t],
                ) by {
                    if a < prev.len() {
                        assert(cur[a] == prev[a]);
                    }
                }
            },
            None => {},
        }
    }
}

proof fn lemma_bias_kinds_named(g: LogicalGraph, bands: Seq<BiasSeverity>, i: int)
    requires
        endpoints_valid(g),
        0 <= i < g.propositions@.len(),
    ensures
        bias_ids_named(g, anchoring_core(g, bands, i)),
        bias_ids_named(g, confirmation_core(g, bands, i)),
        bias_ids_named(g, availability_core(g, bands, i)),
        bias_ids_named(g, planning_core(g, bands, i)),
        bias_ids_named(g, substitution_core(g, bands, i)),
{
    let p = g.propositions@[i];
    assert(g.propositions@.contains(p));
    lemma_own_id_named(g, p);
    lemma_supporters_named(g, p.id@);
    let ss = supporter_ids(g.relationships@, p.id@);
    let c = confirmation_core(g, bands, i);
    assert forall|k: int, t: int| 0 <= k < c.len() && 0 <= t < c[k].0.len() implies names_proposition(
        g,
        #[trigger] c[k].0[t],
    ) by {
        if t > 0 {
            assert(c[k].0[t] == ss[t - 1]);
        }
    }
    lemma_substitution_row_named(g, bands, i, ss.len() as int);
}

/// Every identifier in the bias records names a proposition of the graph, when every
/// relationship's ends do.
pub proof fn bias_ids_present(g: LogicalGraph, bands: Seq<BiasSeverity>, bs: Seq<CognitiveBias>)
    requires
        endpoints_valid(g),
        bias_cores_of(bs) == bias_cores(g, bands),
    ensures
        forall|k: int, t: int|
            0 <= k < bs.len() && 0 <= t < bs[k].affected_node_ids@.len() ==> names_proposition(
                g,
                #[trigger] bs[k].affected_node_ids@[t]@,
            ),
{
    let n = g.propositions@.len() as int;
    let f1 = |i: int| anchoring_core(g, bands, i);
    let f2 = |i: int| confirmation_core(g, bands, i);
    let f3 = |i: int| availability_core(g, bands, i);
    let f4 = |i: int| planning_core(g, bands, i);
    let f5 = |i: int| substitution_core(g, bands, i);
    assert forall|i: int| 0 <= i < n implies bias_ids_named(g, #[trigger] f1(i)) by {
        lemma_bias_kinds_named(g, bands, i);
    }
    assert forall|i: int| 0 <= i < n implies bias_ids_named(g, #[trigger] f2(i)) by {
        lemma_bias_kinds_named(g, bands, i);
    }
    assert forall|i: int| 0 <= i < n implies bias_ids_named(g, #[trigger] f3(i)) by {
        lemma_bias_kinds_named(g, bands, i);
    }
    assert forall|i: int| 0 <= i < n implies bias_ids_named(g, #[trigger] f4(i)) by {
        lemma_bias_kinds_named(g, bands, i);
    }
    assert forall|i: int| 0 <= i < n implies bias_ids_named(g, #[trigger] f5(i)) by {
        lemma_bias_kinds_named(g, bands, i);
    }
    lemma_per_position_named(g, n, f1);
    lemma_per_position_named(g, n, f2);
    lemma_per_position_named(g, n, f3);
    lemma_per_position_named(g, n, f4);
    lemma_per_position_named(g, n, f5);
    let a = per_position(n, f1);
    let b = per_position(n, f2);
    let c = per_position(n, f3);
    let d = per_position(n, f4);
    let e = per_position(n, f5);
    lemma_bnamed_append(g, a, b);
    lemma_bnamed_append(g, a + b, c);
    lemma_bnamed_append(g, a + b + c, d);
    lemma_bnamed_append(g, a + b + c + d, e);
    assert(bias_cores(g, bands) == a + b + c + d + e);
    assert forall|k: int, t: int|
        0 <= k < bs.len() && 0 <= t < bs[k].affected_node_ids@.len() implies names_proposition(
        g,
        #[trigger] bs[k].affected_node_ids@[t]@,
    ) by {
        assert(bias_cores_of(bs)[k].0[t] == bs[k].affected_node_ids@[t]@);
    }
}

/// Every identifier in a reported cycle names a proposition of the graph.
pub proof fn cycle_ids_present(g: LogicalGraph, cycles: Seq<Vec<String>>)
    requires
        forall|k: int| 0 <= k < cycles.len() ==> names_dependency_cycle(g, id_seq(#[trigger] cycles[k]@)),
    ensures
        forall|k: int, t: int|
            0 <= k < cycles.len() && 0 <= t < cycles[k]@.len() ==> names_proposition(
                g,
                #[trigger] cycles[k]@[t]@,
            ),
{
    assert forall|k: int, t: int| 0 <= k < cycles.len() && 0 <= t < cycles[k]@.len() implies names_proposition(
        g,
        #[trigger] cycles[k]@[t]@,
    ) by {
        assert(names_dependency_cycle(g, id_seq(cycles[k]@)));
        let c = choose|c: Seq<usize>| is_dependency_cycle(g, c) && ids_at(g, c) == id_seq(cycles[k]@);
        assert(id_seq(cycles[k]@).len() == cycles[k]@.len());
        assert(ids_at(g, c).len() == c.len());
        assert(id_seq(cycles[k]@)[t] == cycles[k]@[t]@);
        assert(ids_at(g, c)[t] == g.propositions@[c[t] as int].id@);
        assert(g.propositions@.contains(g.propositions@[c[t] as int]));
        lemma_own_id_named(g, g.propositions@[c[t] as int]);
    }
}

} // verus!

verus! {

/// Identifiers of propositions are pairwise distinct.
pub open spec fn ids_unique(props: Seq<Proposition>) -> bool {
    forall|i: int, j: int|
        0 <= i < props.len() && 0 <= j < props.len() && i != j ==> props[i].id@ != props[j].id@
}

proof fn lemma_lookup_own(props: Seq<Proposition>, i: int)
    requires
        ids_unique(props),
        0 <= i < props.len(),
    ensures
        lookup(props, props[i].id@) == Some(i),
{
    lemma_lookup_spec(props, props[i].id@);
}

/// With distinct identifiers, a topological order written as identifiers names no
/// proposition on a dependency cycle, and of the two ends of a dependency relationship that
/// both appear, the source comes first.
pub proof fn topological_ids_respect_dependencies(
    g: LogicalGraph,
    order: Seq<usize>,
    r: Seq<Seq<char>>,
    c: Seq<usize>,
)
    requires
        ids_unique(g.propositions@),
        g.propositions@.len() <= usize::MAX,
        is_topological(g, order),
        r == ids_at(g, order),
    ensures
        is_dependency_cycle(g, c) ==> forall|k: int, i: int|
            0 <= k < r.len() && 0 <= i < c.len() ==> r[k] != g.propositions@[c[i] as int].id@,
        forall|w: int, a: int, b: int|
            0 <= w < g.relationships@.len() && is_dependency(g.relationships@[w].rel_type) && 0 <= a
                < r.len() && 0 <= b < r.len() && r[a] == g.relationships@[w].from_id@ && r[b]
                == g.relationships@[w].to_id@ ==> a < b,
{
    let props = g.propositions@;
    if is_dependency_cycle(g, c) {
        topological_order_respects_dependencies(g, order, c, 0, 0, 0, 0);
        assert forall|k: int, i: int| 0 <= k < r.len() && 0 <= i < c.len() implies r[k]
            != props[c[i] as int].id@ by {
            if r[k] == props[c[i] as int].id@ {
                assert(r[k] == props[order[k] as int].id@);
                assert(order[k] == c[i]);
                assert(c.contains(order[k]));
            }
        }
    }
    assert forall|w: int, a: int, b: int|
        0 <= w < g.relationships@.len() && is_dependency(g.relationships@[w].rel_type) && 0 <= a
            < r.len() && 0 <= b < r.len() && r[a] == g.relationships@[w].from_id@ && r[b]
            == g.relationships@[w].to_id@ implies a < b by {
        let u = order[a] as int;
        let v = order[b] as int;
        assert(r[a] == props[u].id@);
        assert(r[b] == props[v].id@);
        lemma_lookup_own(props, u);
        lemma_lookup_own(props, v);
        assert(dep_edge_before(g, u, v, g.relationships@.len() as int));
        topological_order_respects_dependencies(g, order, Seq::empty(), u, v, a, b);
    }
}

proof fn lemma_rotation_symmetric(a: Seq<Seq<char>>, b: Seq<Seq<char>>)
    requires
        is_rotation(a, b),
    ensures
        is_rotation(b, a),
{
    if a.len() > 0 {
        let k = choose|k: int| 0 <= k < a.len() && #[trigger] rotated(a, k) == b;
        let n = a.len() as int;
        if k == 0 {
            assert(rotated(a, 0) =~= a);
            assert(rotated(b, 0) =~= b);
        } else {
            assert(rotated(b, n - k) =~= a);
        }
    }
}

/// No reported cycle is a rotation of another, in either order.
pub proof fn cycles_rotation_free_both_ways(cycles: Seq<Vec<String>>)
    requires
        rotation_free(cycles),
    ensures
        forall|i: int, j: int|
            0 <= i < cycles.len() && 0 <= j < cycles.len() && i != j ==> !is_rotation(
                id_seq(cycles[i]@),
                id_seq(cycles[j]@),
            ),
{
    assert forall|i: int, j: int|
        0 <= i < cycles.len() && 0 <= j < cycles.len() && i != j implies !is_rotation(
        id_seq(cycles[i]@),
        id_seq(cycles[j]@),
    ) by {
        if j < i && is_rotation(id_seq(cycles[i]@), id_seq(cycles[j]@)) {
            lemma_rotation_symmetric(id_seq(cycles[i]@), id_seq(cycles[j]@));
        }
    }
}

} // verus!
