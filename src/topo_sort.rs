use vstd::prelude::*;

use crate::cycle_detection::{adj_in_range, id_seq, ids_at, ids_of_positions, is_dependency_cycle, lemma_adj_in_range};
use crate::text::{chars_of, lex_lt, lex_lt_from, str_lt};
use crate::types::{
    LogicalGraph,
    dep_edge,
    find_index,
    is_adjacency,
    is_dependency,
    is_dependency_edge,
    edge_targets,
    lemma_dependency_targets,
    lookup,
};

verus! {

/// Every dependency edge that ends at the proposition at `v` starts at a proposition placed
/// among the first `k` entries of `order`.
pub open spec fn preds_placed(g: LogicalGraph, order: Seq<usize>, v: int, k: int) -> bool {
    forall|w: int|
        0 <= w < g.relationships@.len() && is_dependency(g.relationships@[w].rel_type) && lookup(
            g.propositions@,
            #[trigger] g.relationships@[w].to_id@,
        ) == Some(v) ==> lookup(g.propositions@, g.relationships@[w].from_id@) is Some
            && order.take(k).contains(
            lookup(g.propositions@, g.relationships@[w].from_id@).unwrap() as usize,
        )
}

/// `order` lists distinct propositions, each after the sources of all dependency edges into it.
pub open spec fn is_topological(g: LogicalGraph, order: Seq<usize>) -> bool {
    &&& order.no_duplicates()
    &&& forall|k: int| 0 <= k < order.len() ==> (order[k] as int) < g.propositions@.len()
    &&& forall|k: int| 0 <= k < order.len() ==> preds_placed(g, order, #[trigger] order[k] as int, k)
}

/// Some dependency edge into the proposition at `v` starts at a proposition not flagged in
/// `placed`, or at an identifier that names no proposition.
pub open spec fn blocked(g: LogicalGraph, placed: Seq<bool>, v: int) -> bool {
    exists|w: int|
        0 <= w < g.relationships@.len() && is_dependency(g.relationships@[w].rel_type) && lookup(
            g.propositions@,
            #[trigger] g.relationships@[w].to_id@,
        ) == Some(v) && (lookup(g.propositions@, g.relationships@[w].from_id@) is None
            || !placed[lookup(g.propositions@, g.relationships@[w].from_id@).unwrap()])
}

/// Every proposition left out of `order` has a dependency edge into it from one that is also
/// left out, or from an identifier that names no proposition.
pub open spec fn is_closed(g: LogicalGraph, order: Seq<usize>) -> bool {
    forall|v: usize|
        (v as int) < g.propositions@.len() && !#[trigger] order.contains(v) ==> exists|w: int|
            0 <= w < g.relationships@.len() && is_dependency(g.relationships@[w].rel_type)
                && lookup(g.propositions@, #[trigger] g.relationships@[w].to_id@) == Some(v as int) && (
            lookup(g.propositions@, g.relationships@[w].from_id@) is None || !order.contains(
                lookup(g.propositions@, g.relationships@[w].from_id@).unwrap() as usize,
            ))
}

/// No dependency edge ends at the proposition at `v`.
pub open spec fn is_free(g: LogicalGraph, v: int) -> bool {
    forall|w: int|
        0 <= w < g.relationships@.len() && is_dependency(g.relationships@[w].rel_type) ==> lookup(
            g.propositions@,
            #[trigger] g.relationships@[w].to_id@,
        ) != Some(v)
}

/// The propositions with no dependency edge into them lead `order`, sorted by identifier.
pub open spec fn free_first_sorted(g: LogicalGraph, order: Seq<usize>) -> bool {
    &&& forall|i: int, j: int|
        0 <= i < j < order.len() && is_free(g, order[j] as int) ==> is_free(g, order[i] as int)
    &&& forall|i: int, j: int|
        0 <= i < j < order.len() && is_free(g, order[j] as int) ==> !lex_lt(
            g.propositions@[order[j] as int].id@,
            g.propositions@[order[i] as int].id@,
        )
}

/// Number of unset flags.
pub open spec fn count_false(s: Seq<bool>) -> nat
    decreases s.len(),
{
    if s.len() == 0 {
        0
    } else {
        count_false(s.drop_last()) + (if s.last() {
            0nat
        } else {
            1nat
        })
    }
}

pub proof fn lemma_count_false_set(s: Seq<bool>, i: int)
    requires
        0 <= i < s.len(),
        !s[i],
    ensures
        count_false(s.update(i, true)) + 1 == count_false(s),
    decreases s.len(),
{
    let t = s.update(i, true);
    if i == s.len() - 1 {
        assert(t.drop_last() =~= s.drop_last());
    } else {
        assert(t.drop_last() =~= s.drop_last().update(i, true));
        lemma_count_false_set(s.drop_last(), i);
    }
}

proof fn lemma_lex_lt_trans_from(a: Seq<char>, b: Seq<char>, c: Seq<char>, i: int)
    requires
        0 <= i,
        lex_lt_from(a, b, i),
        lex_lt_from(b, c, i),
    ensures
        lex_lt_from(a, c, i),
    decreases a.len() - i,
{
    if i < a.len() && i < b.len() && i < c.len() && a[i] == b[i] && b[i] == c[i] {
        lemma_lex_lt_trans_from(a, b, c, i + 1);
    }
}

proof fn lemma_lex_lt_irrefl(a: Seq<char>, i: int)
    requires
        0 <= i,
    ensures
        !lex_lt_from(a, a, i),
    decreases a.len() - i,
{
    if i < a.len() {
        lemma_lex_lt_irrefl(a, i + 1);
    }
}

/// Positions `v`, sorted by the identifiers `ids` gives them; equal identifiers keep their
/// order.
fn sort_by_id(ids: &Vec<Vec<char>>, v: &Vec<usize>) -> (r: Vec<usize>)
    requires
        forall|k: int| 0 <= k < v@.len() ==> (v@[k] as int) < ids@.len(),
    ensures
        r@.len() == v@.len(),
        forall|x: usize| r@.contains(x) <==> v@.contains(x),
        forall|k: int| 0 <= k < r@.len() ==> (r@[k] as int) < ids@.len(),
        forall|a: int, b: int|
            0 <= a < b < r@.len() ==> !lex_lt(ids@[r@[b] as int]@, ids@[r@[a] as int]@),
{
    let mut r: Vec<usize> = Vec::new();
    let mut i: usize = 0;
    while i < v.len()
        invariant
            i <= v@.len(),
            forall|k: int| 0 <= k < v@.len() ==> (v@[k] as int) < ids@.len(),
            r@.len() == i,
            forall|x: usize| r@.contains(x) <==> v@.take(i as int).contains(x),
            forall|k: int| 0 <= k < r@.len() ==> (r@[k] as int) < ids@.len(),
            forall|a: int, b: int|
                0 <= a < b < r@.len() ==> !lex_lt(ids@[r@[b] as int]@, ids@[r@[a] as int]@),
        decreases v.len() - i,
    {
        let x = v[i];
        let mut p: usize = 0;
        while p < r.len() && !str_lt(&ids[x], &ids[r[p]])
            invariant
                p <= r@.len(),
                (x as int) < ids@.len(),
                forall|k: int| 0 <= k < r@.len() ==> (r@[k] as int) < ids@.len(),
                forall|q: int| 0 <= q < p ==> !lex_lt(ids@[x as int]@, ids@[r@[q] as int]@),
            decreases r.len() - p,
        {
            p = p + 1;
        }
        let ghost old_r = r@;
        r.insert(p, x);
        proof {
            assert(r@ == old_r.insert(p as int, x));
            assert forall|a: int, b: int| 0 <= a < b < r@.len() implies !lex_lt(
                ids@[r@[b] as int]@,
                ids@[r@[a] as int]@,
            ) by {
                if b == p {
                    assert(r@[a] == old_r[a]);
                    assert(r@[b] == x);
                    assert(!lex_lt(ids@[r@[b] as int]@, ids@[r@[a] as int]@));
                } else if a == p {
                    assert(r@[b] == old_r[b - 1]);
                    assert(lex_lt(ids@[x as int]@, ids@[old_r[p as int] as int]@));
                    if lex_lt(ids@[r@[b] as int]@, ids@[x as int]@) {
                        lemma_lex_lt_trans_from(
                            ids@[r@[b] as int]@,
                            ids@[x as int]@,
                            ids@[old_r[p as int] as int]@,
                            0,
                        );
                        if b - 1 == p {
                            lemma_lex_lt_irrefl(ids@[old_r[p as int] as int]@, 0);
                        } else {
                            assert(!lex_lt(
                                ids@[old_r[b - 1] as int]@,
                                ids@[old_r[p as int] as int]@,
                            ));
                        }
                    }
                    assert(r@[a] == x);
                    assert(!lex_lt(ids@[r@[b] as int]@, ids@[r@[a] as int]@));
                } else if a < p && b > p {
                    assert(r@[a] == old_r[a]);
                    assert(r@[b] == old_r[b - 1]);
                } else if b < p {
                    assert(r@[a] == old_r[a]);
                    assert(r@[b] == old_r[b]);
                } else {
                    assert(r@[a] == old_r[a - 1]);
                    assert(r@[b] == old_r[b - 1]);
                }
            }
            assert forall|y: usize| r@.contains(y) <==> v@.take(i + 1).contains(y) by {
                assert(v@.take(i + 1) =~= v@.take(i as int).push(x));
                if r@.contains(y) {
                    let q = choose|q: int| 0 <= q < r@.len() && r@[q] == y;
                    if q < p {
                        assert(old_r[q] == y);
                    } else if q > p {
                        assert(old_r[q - 1] == y);
                    }
                    if y != x {
                        assert(old_r.contains(y));
                        assert(v@.take(i as int).contains(y));
                        let vt = v@.take(i as int);
                        let z = choose|z: int| 0 <= z < vt.len() && vt[z] == y;
                        assert(v@.take(i + 1)[z] == y);
                    } else {
                        assert(v@.take(i + 1)[i as int] == y);
                    }
                }
                if v@.take(i + 1).contains(y) {
                    let vt = v@.take(i + 1);
                    let z = choose|z: int| 0 <= z < vt.len() && vt[z] == y;
                    if z < i {
                        assert(v@.take(i as int)[z] == y);
                        assert(old_r.contains(y));
                        let q = choose|q: int| 0 <= q < old_r.len() && old_r[q] == y;
                        if q < p {
                            assert(r@[q] == y);
                        } else {
                            assert(r@[q + 1] == y);
                        }
                    } else {
                        assert(r@[p as int] == x);
                    }
                }
            }
        }
        i = i + 1;
    }
    proof {
        assert(v@.take(i as int) =~= v@);
    }
    r
}

} // verus!

verus! {

/// `ix` holds, for each relationship, the resolved position of the endpoint `end` picks.
pub open spec fn resolves(g: LogicalGraph, ix: Seq<Option<usize>>, from_end: bool) -> bool {
    ix.len() == g.relationships@.len() && forall|w: int|
        0 <= w < ix.len() ==> {
            let id = if from_end {
                g.relationships@[w].from_id@
            } else {
                g.relationships@[w].to_id@
            };
            match #[trigger] ix[w] {
                Some(i) => lookup(g.propositions@, id) == Some(i as int),
                None => lookup(g.propositions@, id) is None,
            }
        }
}

/// Resolved positions of the sources (`from_end`) or targets of all relationships.
pub fn resolve_ends(graph: &LogicalGraph, from_end: bool) -> (ix: Vec<Option<usize>>)
    ensures
        resolves(*graph, ix@, from_end),
{
    let mut ix: Vec<Option<usize>> = Vec::new();
    let mut w: usize = 0;
    while w < graph.relationships.len()
        invariant
            w <= graph.relationships@.len(),
            ix@.len() == w,
            forall|q: int|
                0 <= q < w ==> {
                    let id = if from_end {
                        graph.relationships@[q].from_id@
                    } else {
                        graph.relationships@[q].to_id@
                    };
                    match #[trigger] ix@[q] {
                        Some(i) => lookup(graph.propositions@, id) == Some(i as int),
                        None => lookup(graph.propositions@, id) is None,
                    }
                },
        decreases graph.relationships.len() - w,
    {
        let rel = &graph.relationships[w];
        let found = if from_end {
            find_index(&graph.propositions, &rel.from_id)
        } else {
            find_index(&graph.propositions, &rel.to_id)
        };
        ix.push(found);
        w = w + 1;
    }
    ix
}

/// Whether every dependency edge into the proposition at `v` starts at a proposition
/// flagged in `done`.
fn all_preds_done(
    graph: &LogicalGraph,
    from_ix: &Vec<Option<usize>>,
    to_ix: &Vec<Option<usize>>,
    v: usize,
    done: &Vec<bool>,
) -> (r: bool)
    requires
        resolves(*graph, from_ix@, true),
        resolves(*graph, to_ix@, false),
        done@.len() == graph.propositions@.len(),
    ensures
        r == !blocked(*graph, done@, v as int),
{
    let mut w: usize = 0;
    while w < graph.relationships.len()
        invariant
            resolves(*graph, from_ix@, true),
            resolves(*graph, to_ix@, false),
            done@.len() == graph.propositions@.len(),
            w <= graph.relationships@.len(),
            forall|q: int|
                0 <= q < w && is_dependency(graph.relationships@[q].rel_type) && lookup(
                    graph.propositions@,
                    #[trigger] graph.relationships@[q].to_id@,
                ) == Some(v as int) ==> lookup(graph.propositions@, graph.relationships@[q].from_id@) is Some
                    && done@[lookup(graph.propositions@, graph.relationships@[q].from_id@).unwrap()],
        decreases graph.relationships.len() - w,
    {
        let ghost gw = graph.relationships@[w as int];
        proof {
            crate::types::lemma_lookup_spec(graph.propositions@, gw.from_id@);
        }
        assert(match from_ix@[w as int] {
            Some(i) => lookup(graph.propositions@, gw.from_id@) == Some(i as int),
            None => lookup(graph.propositions@, gw.from_id@) is None,
        });
        assert(match to_ix@[w as int] {
            Some(i) => lookup(graph.propositions@, gw.to_id@) == Some(i as int),
            None => lookup(graph.propositions@, gw.to_id@) is None,
        });
        if is_dependency_edge(graph.relationships[w].rel_type) && to_ix[w] == Some(v) {
            match from_ix[w] {
                Some(f) => {
                    if !done[f] {
                        return false;
                    }
                },
                None => {
                    return false;
                },
            }
        }
        w = w + 1;
    }
    true
}

} // verus!

verus! {

proof fn lemma_push_keeps_placed(g: LogicalGraph, order: Seq<usize>, v: usize)
    requires
        forall|k: int| 0 <= k < order.len() ==> preds_placed(g, order, #[trigger] order[k] as int, k),
    ensures
        forall|k: int|
            0 <= k < order.len() ==> preds_placed(g, order.push(v), #[trigger] order.push(v)[k] as int, k),
{
    assert forall|k: int| 0 <= k < order.len() implies preds_placed(
        g,
        order.push(v),
        #[trigger] order.push(v)[k] as int,
        k,
    ) by {
        assert(order.push(v).take(k) =~= order.take(k));
        assert(order.push(v)[k] == order[k]);
    }
}

pub proof fn lemma_push_contains(s: Seq<usize>, v: usize)
    ensures
        forall|x: usize| #[trigger] s.push(v).contains(x) <==> (s.contains(x) || x == v),
{
    assert forall|x: usize| #[trigger] s.push(v).contains(x) <==> (s.contains(x) || x == v) by {
        if s.contains(x) {
            let i = choose|i: int| 0 <= i < s.len() && s[i] == x;
            assert(s.push(v)[i] == x);
        }
        if x == v {
            assert(s.push(v)[s.len() as int] == x);
        }
        if s.push(v).contains(x) && x != v {
            let i = choose|i: int| 0 <= i < s.push(v).len() && s.push(v)[i] == x;
            assert(s[i] == x);
        }
    }
}

proof fn lemma_take_contains_grow(s: Seq<usize>, a: int, b: int, x: usize)
    requires
        0 <= a <= b <= s.len(),
        s.take(a).contains(x),
    ensures
        s.take(b).contains(x),
{
    let i = choose|i: int| 0 <= i < s.take(a).len() && s.take(a)[i] == x;
    assert(s.take(b)[i] == x);
}

/// The propositions in dependency order by Kahn's algorithm over dependency edges: those with
/// no dependency edge into them first, sorted by identifier, then each proposition as soon as
/// the sources of all dependency edges into it are placed, the targets of each placed
/// proposition taken in identifier order. Propositions on a dependency cycle, or reached from
/// one, never become free and are left out: the result lists each proposition after the
/// sources of all dependency edges into it, and every proposition left out has such an edge
/// from one that is left out too.
pub fn topological_sort(graph: &LogicalGraph) -> (r: Vec<String>)
    ensures
        exists|order: Seq<usize>|
            is_topological(*graph, order) && is_closed(*graph, order) && free_first_sorted(*graph, order)
                && id_seq(r@) == ids_at(*graph, order),
{
    let n = graph.propositions.len();
    let adj = graph.get_dependency_adjacency();
    proof {
        lemma_adj_in_range(*graph, adj@);
    }
    let from_ix = resolve_ends(graph, true);
    let to_ix = resolve_ends(graph, false);
    let mut ids: Vec<Vec<char>> = Vec::new();
    let mut done: Vec<bool> = Vec::new();
    let mut queued: Vec<bool> = Vec::new();
    let mut all: Vec<usize> = Vec::new();
    let mut i: usize = 0;
    while i < n
        invariant
            n == graph.propositions@.len(),
            i <= n,
            ids@.len() == i,
            done@.len() == i,
            queued@.len() == i,
            all@.len() == i,
            forall|x: int| 0 <= x < i ==> !done@[x] && !queued@[x] && all@[x] == x,
            forall|x: int| 0 <= x < i ==> (#[trigger] ids@[x])@ == graph.propositions@[x].id@,
        decreases n - i,
    {
        ids.push(chars_of(graph.propositions[i].id.as_str()));
        done.push(false);
        queued.push(false);
        all.push(i);
        i = i + 1;
    }
    let seeds = sort_by_id(&ids, &all);
    proof {
        assert(seeds@.subrange(0, n as int) =~= seeds@);
        assert forall|x: usize| (x as int) < n implies seeds@.contains(x) by {
            assert(all@[x as int] == x);
        }
    }
    let mut order: Vec<usize> = Vec::new();
    let mut j: usize = 0;
    while j < seeds.len()
        invariant
            n == graph.propositions@.len(),
            n == ids@.len(),
            n == done@.len(),
            n == queued@.len(),
            n == all@.len(),
            resolves(*graph, from_ix@, true),
            resolves(*graph, to_ix@, false),
            seeds@.len() == n,
            forall|x: usize| seeds@.contains(x) <==> all@.contains(x),
            forall|x: int| 0 <= x < n ==> all@[x] == x,
            forall|k: int| 0 <= k < seeds@.len() ==> (seeds@[k] as int) < n,
            j <= seeds@.len(),
            forall|x: int| 0 <= x < n ==> !done@[x],
            order@.no_duplicates(),
            forall|k: int| 0 <= k < order@.len() ==> (order@[k] as int) < n,
            forall|x: usize| (x as int) < n ==> (queued@[x as int] <==> order@.contains(x)),
            forall|k: int| 0 <= k < order@.len() ==> preds_placed(*graph, order@, #[trigger] order@[k] as int, k),
            forall|x: usize|
                (x as int) < n && !queued@[x as int] ==> blocked(*graph, done@, x as int)
                    || seeds@.subrange(j as int, n as int).contains(x),
            forall|x: int| 0 <= x < n ==> (#[trigger] ids@[x])@ == graph.propositions@[x].id@,
            forall|a: int, b: int|
                0 <= a < b < seeds@.len() ==> !lex_lt(ids@[seeds@[b] as int]@, ids@[seeds@[a] as int]@),
            forall|k: int| 0 <= k < order@.len() ==> is_free(*graph, #[trigger] order@[k] as int),
            forall|a: int, b: int|
                0 <= a < b < order@.len() ==> !lex_lt(ids@[order@[b] as int]@, ids@[order@[a] as int]@),
            forall|k: int, q: int|
                0 <= k < order@.len() && j <= q < seeds@.len() ==> !lex_lt(
                    ids@[seeds@[q] as int]@,
                    ids@[order@[k] as int]@,
                ),
        decreases seeds.len() - j,
    {
        let v = seeds[j];
        if !queued[v] && all_preds_done(graph, &from_ix, &to_ix, v, &done) {
            proof {
                lemma_push_keeps_placed(*graph, order@, v);
                assert forall|w: int|
                    0 <= w < graph.relationships@.len() && is_dependency(graph.relationships@[w].rel_type)
                        && lookup(graph.propositions@, #[trigger] graph.relationships@[w].to_id@)
                        == Some(v as int) implies false by {
                    crate::types::lemma_lookup_spec(graph.propositions@, graph.relationships@[w].from_id@);
                    assert(blocked(*graph, done@, v as int));
                }
                lemma_push_contains(order@, v);
            }
            order.push(v);
            queued.set(v, true);
        }
        proof {
            assert forall|x: usize|
                (x as int) < n && !queued@[x as int] implies blocked(*graph, done@, x as int)
                    || seeds@.subrange(j + 1, n as int).contains(x) by {
                if x != v && seeds@.subrange(j as int, n as int).contains(x) {
                    let q = choose|q: int|
                        0 <= q < seeds@.subrange(j as int, n as int).len() && seeds@.subrange(
                            j as int,
                            n as int,
                        )[q] == x;
                    assert(q != 0);
                    assert(seeds@.subrange(j + 1, n as int)[q - 1] == x);
                }
            }
        }
        j = j + 1;
    }
    proof {
        assert forall|x: usize| (x as int) < n && !queued@[x as int] implies blocked(*graph, done@, x as int) by {
            assert(!seeds@.subrange(n as int, n as int).contains(x));
        }
    }
    let ghost seed_order = order@;
    let ghost s0 = order@.len();
    proof {
        assert forall|x: usize| (x as int) < n && !queued@[x as int] implies !is_free(*graph, x as int) by {
            assert(blocked(*graph, done@, x as int));
        }
        assert(order@.take(s0 as int) =~= seed_order);
    }
    let mut head: usize = 0;
    while head < order.len()
        invariant
            s0 == seed_order.len(),
            s0 <= order@.len(),
            order@.take(s0 as int) == seed_order,
            forall|k: int| 0 <= k < seed_order.len() ==> is_free(*graph, #[trigger] seed_order[k] as int),
            forall|a: int, b: int|
                0 <= a < b < seed_order.len() ==> !lex_lt(ids@[seed_order[b] as int]@, ids@[seed_order[a] as int]@),
            forall|k: int| s0 <= k < order@.len() ==> !is_free(*graph, #[trigger] order@[k] as int),
            forall|x: usize| (x as int) < n && !queued@[x as int] ==> !is_free(*graph, x as int),
            forall|x: int| 0 <= x < n ==> (#[trigger] ids@[x])@ == graph.propositions@[x].id@,
            n == graph.propositions@.len(),
            n == ids@.len(),
            n == done@.len(),
            n == queued@.len(),
            n == adj@.len(),
            adj_in_range(adj@),
            is_adjacency(*graph, adj@, true),
            resolves(*graph, from_ix@, true),
            resolves(*graph, to_ix@, false),
            head <= order@.len(),
            order@.no_duplicates(),
            forall|k: int| 0 <= k < order@.len() ==> (order@[k] as int) < n,
            forall|x: usize| (x as int) < n ==> (queued@[x as int] <==> order@.contains(x)),
            forall|x: usize| (x as int) < n ==> (done@[x as int] <==> order@.take(head as int).contains(x)),
            forall|k: int| 0 <= k < order@.len() ==> preds_placed(*graph, order@, #[trigger] order@[k] as int, k),
            forall|x: usize| (x as int) < n && !queued@[x as int] ==> blocked(*graph, done@, x as int),
        decreases 2 * count_false(queued@) + order@.len() - head,
    {
        let u = order[head];
        let ghost done0 = done@;
        done.set(u, true);
        head = head + 1;
        proof {
            assert(order@.take(head as int) =~= order@.take(head - 1).push(u));
            assert forall|x: usize| (x as int) < n implies (done@[x as int] <==> order@.take(head as int).contains(x)) by {
                if x != u && order@.take(head as int).contains(x) {
                    let ot = order@.take(head as int);
                    let q = choose|q: int| 0 <= q < ot.len() && ot[q] == x;
                    assert(q != head - 1);
                    assert(order@.take(head - 1)[q] == x);
                }
                if x != u && order@.take(head - 1).contains(x) {
                    let ot = order@.take(head - 1);
                    let q = choose|q: int| 0 <= q < ot.len() && ot[q] == x;
                    assert(order@.take(head as int)[q] == x);
                }
                if x == u {
                    assert(order@.take(head as int)[head - 1] == x);
                }
            }
        }
        let nbrs = sort_by_id(&ids, &adj[u]);
        proof {
            let m = graph.relationships@.len() as int;
            assert(adj@[u as int]@ == edge_targets(*graph, u as int, m, true));
            assert forall|x: usize| (x as int) < n && !queued@[x as int] implies blocked(*graph, done@, x as int)
                || nbrs@.contains(x) by {
                assert(blocked(*graph, done0, x as int));
                let w = choose|w: int|
                    0 <= w < graph.relationships@.len() && is_dependency(graph.relationships@[w].rel_type)
                        && lookup(graph.propositions@, #[trigger] graph.relationships@[w].to_id@) == Some(x as int) && (
                    lookup(graph.propositions@, graph.relationships@[w].from_id@) is None
                        || !done0[lookup(graph.propositions@, graph.relationships@[w].from_id@).unwrap()]);
                let f = lookup(graph.propositions@, graph.relationships@[w].from_id@);
                crate::types::lemma_lookup_spec(graph.propositions@, graph.relationships@[w].from_id@);
                if f == Some(u as int) {
                    lemma_dependency_targets(*graph, u as int, x, m);
                    assert(adj@[u as int]@.contains(x));
                } else {
                    assert(done@ == done0.update(u as int, true));
                    assert(blocked(*graph, done@, x as int));
                }
            }
        }
        proof {
            assert(nbrs@.subrange(0, nbrs@.len() as int) =~= nbrs@);
        }
        let ghost q0 = queued@;
        let ghost len0 = order@.len();
        let mut k: usize = 0;
        while k < nbrs.len()
            invariant
                s0 <= order@.len(),
                order@.take(s0 as int) == seed_order,
                forall|t: int| s0 <= t < order@.len() ==> !is_free(*graph, #[trigger] order@[t] as int),
                forall|x: usize| (x as int) < n && !queued@[x as int] ==> !is_free(*graph, x as int),
                n == graph.propositions@.len(),
                n == done@.len(),
                n == queued@.len(),
                resolves(*graph, from_ix@, true),
                resolves(*graph, to_ix@, false),
                forall|t: int| 0 <= t < nbrs@.len() ==> (nbrs@[t] as int) < n,
                k <= nbrs@.len(),
                1 <= head <= order@.len(),
                order@.no_duplicates(),
                forall|t: int| 0 <= t < order@.len() ==> (order@[t] as int) < n,
                forall|x: usize| (x as int) < n ==> (queued@[x as int] <==> order@.contains(x)),
                forall|x: usize| (x as int) < n ==> (done@[x as int] <==> order@.take(head as int).contains(x)),
                forall|t: int| 0 <= t < order@.len() ==> preds_placed(*graph, order@, #[trigger] order@[t] as int, t),
                forall|x: usize|
                    (x as int) < n && !queued@[x as int] ==> blocked(*graph, done@, x as int)
                        || nbrs@.subrange(k as int, nbrs@.len() as int).contains(x),
                2 * count_false(queued@) + order@.len() <= 2 * count_false(q0) + len0,
            decreases nbrs.len() - k,
        {
            let v = nbrs[k];
            if !queued[v] && all_preds_done(graph, &from_ix, &to_ix, v, &done) {
                proof {
                    lemma_push_keeps_placed(*graph, order@, v);
                    let np = order@.push(v);
                    assert forall|w: int|
                        0 <= w < graph.relationships@.len() && is_dependency(graph.relationships@[w].rel_type)
                            && lookup(graph.propositions@, #[trigger] graph.relationships@[w].to_id@)
                            == Some(v as int) implies lookup(graph.propositions@, graph.relationships@[w].from_id@) is Some
                        && np.take(order@.len() as int).contains(
                        lookup(graph.propositions@, graph.relationships@[w].from_id@).unwrap() as usize,
                    ) by {
                        let f = lookup(graph.propositions@, graph.relationships@[w].from_id@).unwrap();
                        crate::types::lemma_lookup_spec(graph.propositions@, graph.relationships@[w].from_id@);
                        assert(done@[f]);
                        assert(order@.take(head as int).contains(f as usize));
                        lemma_take_contains_grow(order@, head as int, order@.len() as int, f as usize);
                        assert(np.take(order@.len() as int) =~= order@.take(order@.len() as int));
                    }
                    assert(np[order@.len() as int] == v);
                    assert(np.take(head as int) =~= order@.take(head as int));
                    lemma_count_false_set(queued@, v as int);
                    lemma_push_contains(order@, v);
                    assert(np.take(s0 as int) =~= order@.take(s0 as int));
                    assert(!is_free(*graph, v as int));
                }
                order.push(v);
                queued.set(v, true);
            }
            proof {
                assert forall|x: usize|
                    (x as int) < n && !queued@[x as int] implies blocked(*graph, done@, x as int)
                        || nbrs@.subrange(k + 1, nbrs@.len() as int).contains(x) by {
                    if x != v && nbrs@.subrange(k as int, nbrs@.len() as int).contains(x) {
                        let q = choose|q: int|
                            0 <= q < nbrs@.subrange(k as int, nbrs@.len() as int).len() && nbrs@.subrange(
                                k as int,
                                nbrs@.len() as int,
                            )[q] == x;
                        assert(q != 0);
                        assert(nbrs@.subrange(k + 1, nbrs@.len() as int)[q - 1] == x);
                    }
                }
            }
            k = k + 1;
        }
        proof {
            assert forall|x: usize| (x as int) < n && !queued@[x as int] implies blocked(*graph, done@, x as int) by {
                assert(!nbrs@.subrange(nbrs@.len() as int, nbrs@.len() as int).contains(x));
            }
        }
    }
    let r = ids_of_positions(graph, &order);
    proof {
        assert(order@.take(head as int) =~= order@);
        assert forall|v: usize| (v as int) < n && !#[trigger] order@.contains(v) implies exists|w: int|
            0 <= w < graph.relationships@.len() && is_dependency(graph.relationships@[w].rel_type)
                && lookup(graph.propositions@, #[trigger] graph.relationships@[w].to_id@) == Some(v as int) && (
            lookup(graph.propositions@, graph.relationships@[w].from_id@) is None || !order@.contains(
                lookup(graph.propositions@, graph.relationships@[w].from_id@).unwrap() as usize,
            )) by {
            assert(blocked(*graph, done@, v as int));
            let w = choose|w: int|
                0 <= w < graph.relationships@.len() && is_dependency(graph.relationships@[w].rel_type)
                    && lookup(graph.propositions@, #[trigger] graph.relationships@[w].to_id@) == Some(v as int) && (
                lookup(graph.propositions@, graph.relationships@[w].from_id@) is None
                    || !done@[lookup(graph.propositions@, graph.relationships@[w].from_id@).unwrap()]);
            crate::types::lemma_lookup_spec(graph.propositions@, graph.relationships@[w].from_id@);
        }
        assert(is_topological(*graph, order@));
        assert forall|k: int| 0 <= k < s0 implies order@[k] == seed_order[k] by {
            assert(order@.take(s0 as int)[k] == order@[k]);
        }
        assert forall|i: int, j: int|
            0 <= i < j < order@.len() && is_free(*graph, order@[j] as int) implies is_free(*graph, order@[i] as int)
                && !lex_lt(
                graph.propositions@[order@[j] as int].id@,
                graph.propositions@[order@[i] as int].id@,
            ) by {
            if j >= s0 {
                assert(!is_free(*graph, order@[j] as int));
            }
            assert(order@[i] == seed_order[i]);
            assert(order@[j] == seed_order[j]);
            assert(is_free(*graph, seed_order[i] as int));
            assert(ids@[seed_order[i] as int]@ == graph.propositions@[seed_order[i] as int].id@);
            assert(ids@[seed_order[j] as int]@ == graph.propositions@[seed_order[j] as int].id@);
        }
        assert(free_first_sorted(*graph, order@));
    }
    r
}

} // verus!

verus! {

proof fn lemma_edge_placed_before(g: LogicalGraph, order: Seq<usize>, u: int, v: int, kv: int)
    requires
        is_topological(g, order),
        g.propositions@.len() <= usize::MAX,
        dep_edge(g, u, v),
        0 <= kv < order.len(),
        order[kv] as int == v,
    ensures
        exists|p: int| 0 <= p < kv && order[p] as int == u,
{
    let w = choose|w: int|
        0 <= w < g.relationships@.len() && is_dependency(g.relationships@[w].rel_type) && lookup(
            g.propositions@,
            g.relationships@[w].from_id@,
        ) == Some(u) && lookup(g.propositions@, g.relationships@[w].to_id@) == Some(v);
    assert(preds_placed(g, order, order[kv] as int, kv));
    crate::types::lemma_lookup_spec(g.propositions@, g.relationships@[w].from_id@);
    let t = order.take(kv);
    assert(t.contains(u as usize));
    let p = choose|p: int| 0 <= p < t.len() && t[p] == u as usize;
    assert(order[p] as int == u);
}

proof fn lemma_cycle_not_placed(g: LogicalGraph, order: Seq<usize>, c: Seq<usize>, k: int)
    requires
        is_topological(g, order),
        g.propositions@.len() <= usize::MAX,
        is_dependency_cycle(g, c),
        0 <= k < order.len(),
    ensures
        !c.contains(order[k]),
    decreases k,
{
    if c.contains(order[k]) {
        let i = choose|i: int| 0 <= i < c.len() && c[i] == order[k];
        let pred = if i == 0 {
            c.last()
        } else {
            c[i - 1]
        };
        if i == 0 {
            assert(dep_edge(g, c.last() as int, c[0] as int));
        } else {
            assert(dep_edge(g, c[i - 1] as int, c[i] as int));
        }
        lemma_edge_placed_before(g, order, pred as int, order[k] as int, k);
        let p = choose|p: int| 0 <= p < k && order[p] as int == pred as int;
        lemma_cycle_not_placed(g, order, c, p);
        if i == 0 {
            assert(c[c.len() - 1] == order[p]);
        } else {
            assert(c[i - 1] == order[p]);
        }
    }
}

/// A topological order leaves out every proposition on a dependency cycle, and of the two
/// ends of a dependency edge that both appear in it, the source comes first.
pub proof fn topological_order_respects_dependencies(
    g: LogicalGraph,
    order: Seq<usize>,
    c: Seq<usize>,
    u: int,
    v: int,
    ku: int,
    kv: int,
)
    requires
        is_topological(g, order),
        g.propositions@.len() <= usize::MAX,
    ensures
        is_dependency_cycle(g, c) ==> forall|k: int| 0 <= k < order.len() ==> !c.contains(#[trigger] order[k]),
        dep_edge(g, u, v) && 0 <= ku < order.len() && 0 <= kv < order.len() && order[ku] as int == u
            && order[kv] as int == v ==> ku < kv,
{
    if is_dependency_cycle(g, c) {
        assert forall|k: int| 0 <= k < order.len() implies !c.contains(#[trigger] order[k]) by {
            lemma_cycle_not_placed(g, order, c, k);
        }
    }
    if dep_edge(g, u, v) && 0 <= ku < order.len() && 0 <= kv < order.len() && order[ku] as int == u
        && order[kv] as int == v {
        lemma_edge_placed_before(g, order, u, v, kv);
        let p = choose|p: int| 0 <= p < kv && order[p] as int == u;
        assert(order[p] == order[ku]);
    }
}

} // verus!
