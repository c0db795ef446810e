use vstd::prelude::*;

use crate::cycle_detection::adj_in_range;

verus! {

/// Breadth-first search from one source over index-based adjacency lists: the order in which
/// propositions are reached, each one's distance from the source, and for each proposition
/// the predecessors on its shortest paths.
pub struct ShortestPaths {
    pub order: Vec<usize>,
    pub dist: Vec<Option<usize>>,
    pub preds: Vec<Vec<usize>>,
}

/// `v` is reached, and its distance is `d`.
pub open spec fn at_dist(dist: Seq<Option<usize>>, v: int, d: int) -> bool {
    0 <= v < dist.len() && dist[v] is Some && dist[v].unwrap() as int == d
}

/// What a breadth-first search from `source` establishes: the source comes first at distance
/// zero; the reached propositions are exactly those listed in `order`, by non-decreasing
/// distance; every edge from a reached proposition leads to one reached at most one step
/// further; each proposition other than the source is reached one step after some
/// predecessor; and `preds[w]` holds exactly the reached `v` with an edge to `w` and
/// `dist[w] == dist[v] + 1`.
pub open spec fn is_bfs(adj: Seq<Vec<usize>>, source: int, sp: ShortestPaths) -> bool {
    let n = adj.len();
    let order = sp.order@;
    let dist = sp.dist@;
    let preds = sp.preds@;
    &&& dist.len() == n
    &&& preds.len() == n
    &&& order.len() >= 1
    &&& order[0] as int == source
    &&& order.no_duplicates()
    &&& forall|k: int| 0 <= k < order.len() ==> (order[k] as int) < n
    &&& dist[source] == Some(0usize)
    &&& forall|v: usize| (v as int) < n ==> (dist[v as int] is Some <==> order.contains(v))
    &&& forall|i: int, j: int|
        0 <= i <= j < order.len() ==> dist[order[i] as int].unwrap() <= dist[order[j] as int].unwrap()
    &&& forall|v: int, t: int|
        0 <= v < n && dist[v] is Some && 0 <= t < adj[v]@.len() ==> dist[adj[v]@[t] as int] is Some
            && dist[adj[v]@[t] as int].unwrap() <= dist[v].unwrap() + 1
    &&& forall|w: int, v: usize|
        0 <= w < n ==> (#[trigger] preds[w]@.contains(v) <==> ((v as int) < n && dist[v as int] is Some
            && adj[v as int]@.contains(w as usize) && dist[w] is Some && dist[w].unwrap()
            == dist[v as int].unwrap() + 1))
    &&& forall|w: int| 0 <= w < n && w != source && dist[w] is Some ==> (#[trigger] preds[w]@).len() > 0
}

} // verus!

verus! {

/// Breadth-first search from `source` over `adj`, recording shortest-path predecessors.
pub fn shortest_path_dag(adj: &Vec<Vec<usize>>, source: usize) -> (sp: ShortestPaths)
    requires
        adj_in_range(adj@),
        source < adj@.len(),
    ensures
        is_bfs(adj@, source as int, sp),
{
    let n = adj.len();
    let mut dist: Vec<Option<usize>> = Vec::new();
    let mut preds: Vec<Vec<usize>> = Vec::new();
    let mut reached: Vec<bool> = Vec::new();
    let mut i: usize = 0;
    while i < n
        invariant
            i <= n,
            dist@.len() == i,
            preds@.len() == i,
            reached@.len() == i,
            forall|x: int| 0 <= x < i ==> (#[trigger] dist@[x]) is None,
            forall|x: int| 0 <= x < i ==> !(#[trigger] reached@[x]),
            forall|x: int| 0 <= x < i ==> (#[trigger] preds@[x])@.len() == 0,
            crate::topo_sort::count_false(reached@) == i,
        decreases n - i,
    {
        dist.push(None);
        preds.push(Vec::new());
        let ghost rb = reached@;
        reached.push(false);
        proof {
            assert(reached@.drop_last() =~= rb);
        }
        i = i + 1;
    }
    let ghost r0 = reached@;
    proof {
        crate::topo_sort::lemma_count_false_set(r0, source as int);
    }
    dist.set(source, Some(0));
    reached.set(source, true);
    let mut order: Vec<usize> = Vec::new();
    order.push(source);
    proof {
        assert forall|v: usize| (v as int) < n implies (dist@[v as int] is Some <==> order@.contains(v)) by {
            if v == source {
                assert(order@[0] == v);
            }
            if order@.contains(v) {
                let k = choose|k: int| 0 <= k < order@.len() && order@[k] == v;
                assert(k == 0);
            }
        }
    }
    let mut head: usize = 0;
    while head < order.len()
        invariant
            n == adj@.len(),
            order@.len() + crate::topo_sort::count_false(reached@) == n,
            adj_in_range(adj@),
            (source as int) < n,
            dist@.len() == n,
            preds@.len() == n,
            reached@.len() == n,
            head <= order@.len(),
            order@.len() >= 1,
            order@[0] == source,
            order@.no_duplicates(),
            forall|k: int| 0 <= k < order@.len() ==> (order@[k] as int) < n,
            dist@[source as int] == Some(0usize),
            forall|v: usize| (v as int) < n ==> (dist@[v as int] is Some <==> order@.contains(v)),
            forall|v: usize| (v as int) < n ==> (reached@[v as int] <==> dist@[v as int] is Some),
            forall|k: int| 0 <= k < order@.len() ==> (#[trigger] dist@[order@[k] as int]).unwrap() <= k,
            forall|i: int, j: int|
                0 <= i <= j < order@.len() ==> dist@[order@[i] as int].unwrap() <= dist@[order@[j] as int].unwrap(),
            head < order@.len() ==> dist@[order@[order@.len() - 1] as int].unwrap() <= dist@[order@[head as int] as int].unwrap() + 1,
            forall|k: int, t: int|
                0 <= k < head && 0 <= t < adj@[order@[k] as int]@.len() ==> dist@[adj@[order@[k] as int]@[t] as int] is Some
                    && dist@[adj@[order@[k] as int]@[t] as int].unwrap() <= dist@[order@[k] as int].unwrap() + 1,
            forall|w: int, x: usize|
                0 <= w < n ==> (#[trigger] preds@[w]@.contains(x) <==> (order@.take(head as int).contains(x)
                    && adj@[x as int]@.contains(w as usize) && dist@[w] is Some && dist@[w].unwrap()
                    == dist@[x as int].unwrap() + 1)),
            forall|w: int| 0 <= w < n && w != source && dist@[w] is Some ==> (#[trigger] preds@[w]@).len() > 0,
        decreases 2 * crate::topo_sort::count_false(reached@) + order@.len() - head,
    {
        let v = order[head];
        proof {
            assert(order@[head as int] == v);
            assert(order@.contains(v));
        }
        let dv = dist[v].unwrap();
        let row = &adj[v];
        let ghost head_order = order@;
        let ghost c0 = crate::topo_sort::count_false(reached@);
        let ghost len0 = order@.len();
        let mut t: usize = 0;
        while t < row.len()
            invariant
                n == adj@.len(),
                adj_in_range(adj@),
                *row == adj@[v as int],
                (v as int) < n,
                v == order@[head as int],
                head < order@.len(),
                dist@[v as int] == Some(dv),
                dv <= head,
                t <= row@.len(),
                dist@.len() == n,
                preds@.len() == n,
                reached@.len() == n,
                order@.len() + crate::topo_sort::count_false(reached@) == n,
                order@.len() >= 1,
                order@[0] == source,
                order@.no_duplicates(),
                order@.take(head + 1) == head_order.take(head + 1),
                head < head_order.len(),
                forall|k: int| 0 <= k < order@.len() ==> (order@[k] as int) < n,
                dist@[source as int] == Some(0usize),
                forall|x: usize| (x as int) < n ==> (dist@[x as int] is Some <==> order@.contains(x)),
                forall|x: usize| (x as int) < n ==> (reached@[x as int] <==> dist@[x as int] is Some),
                forall|k: int| 0 <= k < order@.len() ==> (#[trigger] dist@[order@[k] as int]).unwrap() <= k,
                forall|i: int, j: int|
                    0 <= i <= j < order@.len() ==> dist@[order@[i] as int].unwrap() <= dist@[order@[j] as int].unwrap(),
                dist@[order@[order@.len() - 1] as int].unwrap() <= dv + 1,
                forall|k: int, s: int|
                    0 <= k < head && 0 <= s < adj@[order@[k] as int]@.len() ==> dist@[adj@[order@[k] as int]@[s] as int] is Some
                        && dist@[adj@[order@[k] as int]@[s] as int].unwrap() <= dist@[order@[k] as int].unwrap() + 1,
                forall|s: int| 0 <= s < t ==> dist@[row@[s] as int] is Some && dist@[row@[s] as int].unwrap() <= dv + 1,
                forall|w: int, x: usize|
                    0 <= w < n ==> (#[trigger] preds@[w]@.contains(x) <==> ((order@.take(head as int).contains(x)
                        && adj@[x as int]@.contains(w as usize) && dist@[w] is Some && dist@[w].unwrap()
                        == dist@[x as int].unwrap() + 1) || (x == v && row@.take(t as int).contains(w as usize)
                        && dist@[w] is Some && dist@[w].unwrap() == dv + 1))),
                forall|w: int| 0 <= w < n && w != source && dist@[w] is Some ==> (#[trigger] preds@[w]@).len() > 0,
                crate::topo_sort::count_false(reached@) <= c0,
                order@.len() >= len0,
            decreases row@.len() - t,
        {
            let w = row[t];
            let ghost d0 = dist@;
            let ghost p0 = preds@;
            proof {
                assert(adj@[v as int]@[t as int] == w);
            }
            if dist[w].is_none() {
                let ghost ob = order@;
                let ghost db = dist@;
                proof {
                    crate::topo_sort::lemma_count_false_set(reached@, w as int);
                }
                dist.set(w, Some(dv + 1));
                reached.set(w, true);
                order.push(w);
                proof {
                    assert(!ob.contains(w));
                    assert forall|x: usize| (x as int) < n implies (dist@[x as int] is Some <==> order@.contains(x)) by {
                        if x == w {
                            assert(order@[ob.len() as int] == w);
                        } else {
                            if ob.contains(x) {
                                let k = choose|k: int| 0 <= k < ob.len() && ob[k] == x;
                                assert(order@[k] == x);
                            }
                            if order@.contains(x) {
                                let k = choose|k: int| 0 <= k < order@.len() && order@[k] == x;
                                assert(k < ob.len());
                                assert(ob[k] == x);
                            }
                        }
                    }
                    assert(order@.take(head + 1) =~= ob.take(head + 1));
                    assert(order@.take(head + 1) == head_order.take(head + 1));
                    assert forall|k: int| 0 <= k < order@.len() implies (#[trigger] dist@[order@[k] as int]).unwrap() <= k by {
                        if k < ob.len() {
                            assert(order@[k] == ob[k]);
                            assert(ob[k] != w);
                        }
                    }
                    assert forall|i: int, j: int| 0 <= i <= j < order@.len() implies dist@[order@[i] as int].unwrap()
                        <= dist@[order@[j] as int].unwrap() by {
                        if j < ob.len() {
                            assert(order@[i] == ob[i] && order@[j] == ob[j]);
                            assert(ob[i] != w && ob[j] != w);
                        } else if i < ob.len() {
                            assert(order@[i] == ob[i]);
                            assert(ob[i] != w);
                            assert(db[ob[i] as int].unwrap() <= db[ob[ob.len() - 1] as int].unwrap());
                        }
                    }
                    assert forall|k: int| 0 <= k < ob.len() implies ob[k] != w by {}
                }
            }
            let ghost d1 = dist@;
            let ghost p1 = preds@;
            proof {
                assert(d1[w as int] is Some);
            }
            if dist[w] == Some(dv + 1) {
                let mut pw = preds[w].clone();
                pw.push(v);
                preds.set(w, pw);
                proof {
                    crate::topo_sort::lemma_push_contains(p1[w as int]@, v);
                }
            }
            proof {
                assert(order@.take(head + 1) == head_order.take(head + 1));
                assert(row@.take(t + 1) =~= row@.take(t as int).push(w));
                crate::topo_sort::lemma_push_contains(row@.take(t as int), w);
                assert forall|s: int| 0 <= s < t + 1 implies dist@[row@[s] as int] is Some && dist@[row@[s] as int].unwrap() <= dv + 1 by {
                    if s < t {
                        assert(d0[row@[s] as int] is Some);
                    } else {
                        assert(row@[s] == w);
                        assert(order@.contains(w));
                        let k = choose|k: int| 0 <= k < order@.len() && order@[k] == w;
                        assert(dist@[order@[k] as int].unwrap() <= dist@[order@[order@.len() - 1] as int].unwrap());
                    }
                }
                assert forall|w2: int, x: usize| 0 <= w2 < n implies (#[trigger] preds@[w2]@.contains(x) <==> ((order@.take(head as int).contains(x)
                    && adj@[x as int]@.contains(w2 as usize) && dist@[w2] is Some && dist@[w2].unwrap()
                    == dist@[x as int].unwrap() + 1) || (x == v && row@.take(t + 1).contains(w2 as usize)
                    && dist@[w2] is Some && dist@[w2].unwrap() == dv + 1))) by {
                    let tk = order@.take(head as int);
                    if tk.contains(x) {
                        let k = choose|k: int| 0 <= k < tk.len() && tk[k] == x;
                        assert(order@[k] == x);
                        assert(order@.contains(x));
                        assert(d0[x as int] is Some);
                        if w2 == w as int && adj@[x as int]@.contains(w) {
                            let s2 = choose|s2: int| 0 <= s2 < adj@[x as int]@.len() && adj@[x as int]@[s2] == w;
                            assert(order@.take(head + 1)[k] == order@[k]);
                            assert(head_order.take(head + 1)[k] == x);
                            assert(head_order[k] == x);
                            assert(d0[adj@[head_order[k] as int]@[s2] as int] is Some);
                        }
                    }
                    if x == v {
                        assert(order@[head as int] == v);
                    }
                    if w2 != w as int {
                        assert(preds@[w2] == p0[w2]);
                        assert(dist@[w2] == d0[w2]);
                        if row@.take(t + 1).contains(w2 as usize) {
                            assert(row@.take(t as int).contains(w2 as usize));
                        }
                    }
                }
            }
            t = t + 1;
        }
        proof {
            assert(row@.take(row@.len() as int) =~= row@);
            assert(order@.take(head + 1) =~= order@.take(head as int).push(v));
            crate::topo_sort::lemma_push_contains(order@.take(head as int), v);
        }
        head = head + 1;
    }
    proof {
        assert(order@.take(head as int) =~= order@);
        assert forall|x: int, s: int| 0 <= x < n && dist@[x] is Some && 0 <= s < adj@[x]@.len() implies dist@[adj@[x]@[s] as int] is Some
            && dist@[adj@[x]@[s] as int].unwrap() <= dist@[x].unwrap() + 1 by {
            assert(order@.contains(x as usize));
            let k = choose|k: int| 0 <= k < order@.len() && order@[k] == x as usize;
        }
        assert forall|w: int, x: usize| 0 <= w < n implies (#[trigger] preds@[w]@.contains(x) <==> ((x as int) < n && dist@[x as int] is Some
            && adj@[x as int]@.contains(w as usize) && dist@[w] is Some && dist@[w].unwrap()
            == dist@[x as int].unwrap() + 1)) by {
            if order@.contains(x) {
                let k = choose|k: int| 0 <= k < order@.len() && order@[k] == x;
            }
        }
    }
    ShortestPaths { order, dist, preds }
}

} // verus!
