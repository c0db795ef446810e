use vstd::prelude::*;

use crate::types::{LogicalGraph, dep_edge, is_adjacency, edge_targets, lemma_dependency_targets};

verus! {

pub const WHITE: u8 = 0;

pub const GRAY: u8 = 1;

pub const BLACK: u8 = 2;

/// Identifiers of a sequence of strings.
pub open spec fn id_seq(v: Seq<String>) -> Seq<Seq<char>> {
    v.map_values(|s: String| s@)
}

/// Identifiers of the propositions at the given positions.
pub open spec fn ids_at(g: LogicalGraph, idx: Seq<usize>) -> Seq<Seq<char>> {
    idx.map_values(|i: usize| g.propositions@[i as int].id@)
}

/// `c` is a simple cycle of dependency edges over proposition positions: distinct positions,
/// an edge from each to the next, and one from the last back to the first.
pub open spec fn is_dependency_cycle(g: LogicalGraph, c: Seq<usize>) -> bool {
    &&& c.len() >= 1
    &&& c.no_duplicates()
    &&& forall|k: int| 0 <= k < c.len() ==> (c[k] as int) < g.propositions@.len()
    &&& forall|k: int| 0 <= k < c.len() - 1 ==> dep_edge(g, #[trigger] c[k] as int, c[k + 1] as int)
    &&& dep_edge(g, c.last() as int, c[0] as int)
}

/// `ids` names, proposition by proposition, a simple dependency cycle of `g`.
pub open spec fn names_dependency_cycle(g: LogicalGraph, ids: Seq<Seq<char>>) -> bool {
    exists|c: Seq<usize>| is_dependency_cycle(g, c) && ids_at(g, c) == ids
}

/// `b` is `a` rotated left by `r` places.
pub open spec fn rotated(a: Seq<Seq<char>>, r: int) -> Seq<Seq<char>> {
    a.subrange(r, a.len() as int) + a.subrange(0, r)
}

/// `b` is a rotation of `a`.
pub open spec fn is_rotation(a: Seq<Seq<char>>, b: Seq<Seq<char>>) -> bool {
    a.len() == b.len() && (a.len() == 0 || exists|r: int| 0 <= r < a.len() && #[trigger] rotated(a, r) == b)
}

/// The same cycle over adjacency lists: every step follows an edge of `adj`.
pub open spec fn is_adj_cycle(adj: Seq<Vec<usize>>, c: Seq<usize>) -> bool {
    &&& c.len() >= 1
    &&& c.no_duplicates()
    &&& forall|k: int| 0 <= k < c.len() ==> (c[k] as int) < adj.len()
    &&& forall|k: int| 0 <= k < c.len() - 1 ==> adj[c[k] as int]@.contains(c[k + 1])
    &&& adj[c.last() as int]@.contains(c[0])
}

/// `path` is a simple path along edges of `adj`.
pub open spec fn is_adj_path(adj: Seq<Vec<usize>>, path: Seq<usize>) -> bool {
    &&& path.no_duplicates()
    &&& forall|k: int| 0 <= k < path.len() ==> (path[k] as int) < adj.len()
    &&& forall|k: int| 0 <= k < path.len() - 1 ==> adj[path[k] as int]@.contains(path[k + 1])
}

/// Each finished proposition with an edge to itself has that one-element cycle recorded.
pub open spec fn self_loops_recorded(adj: Seq<Vec<usize>>, color: Seq<u8>, cycles: Seq<Vec<usize>>) -> bool {
    forall|x: usize|
        (x as int) < adj.len() && color[x as int] != WHITE && color[x as int] != GRAY
            && #[trigger] adj[x as int]@.contains(x) ==> exists|k: int| 0 <= k < cycles.len() && cycles[k]@ == seq![x]
}

/// The visit of the proposition at `x` is finished.
pub open spec fn finished(color: Seq<u8>, x: int) -> bool {
    color[x] != WHITE && color[x] != GRAY
}

/// Finishing stamps `fin` of earlier visits are below `clock`, and while no cycle is recorded
/// every finished proposition's targets finished before it did.
pub open spec fn finish_ordered(
    adj: Seq<Vec<usize>>,
    color: Seq<u8>,
    cycles: Seq<Vec<usize>>,
    fin: Seq<int>,
    clock: int,
) -> bool {
    &&& fin.len() == adj.len()
    &&& forall|x: int| 0 <= x < adj.len() && finished(color, x) ==> fin[x] < clock
    &&& cycles.len() == 0 ==> forall|x: int, t: int|
        0 <= x < adj.len() && finished(color, x) && 0 <= t < adj[x]@.len() ==> finished(
            color,
            #[trigger] adj[x]@[t] as int,
        ) && fin[adj[x]@[t] as int] < fin[x]
}

/// `b` starts with all of `a`.
pub open spec fn extends<T>(a: Seq<T>, b: Seq<T>) -> bool {
    a.len() <= b.len() && forall|k: int| 0 <= k < a.len() ==> b[k] == a[k]
}

/// Every target in `adj` is a valid position.
pub open spec fn adj_in_range(adj: Seq<Vec<usize>>) -> bool {
    forall|i: int, t: int|
        0 <= i < adj.len() && 0 <= t < adj[i]@.len() ==> (#[trigger] adj[i]@[t] as int) < adj.len()
}

/// Number of unvisited entries.
pub open spec fn white_count(c: Seq<u8>) -> nat
    decreases c.len(),
{
    if c.len() == 0 {
        0
    } else {
        white_count(c.drop_last()) + (if c.last() == WHITE {
            1nat
        } else {
            0nat
        })
    }
}

proof fn lemma_white_mono(a: Seq<u8>, b: Seq<u8>)
    requires
        a.len() == b.len(),
        forall|x: int| 0 <= x < b.len() && b[x] == WHITE ==> a[x] == WHITE,
    ensures
        white_count(b) <= white_count(a),
    decreases a.len(),
{
    if a.len() > 0 {
        lemma_white_mono(a.drop_last(), b.drop_last());
    }
}

proof fn lemma_white_strict(a: Seq<u8>, b: Seq<u8>, i: int)
    requires
        a.len() == b.len(),
        forall|x: int| 0 <= x < b.len() && b[x] == WHITE ==> a[x] == WHITE,
        0 <= i < a.len(),
        a[i] == WHITE,
        b[i] != WHITE,
    ensures
        white_count(b) < white_count(a),
    decreases a.len(),
{
    if i == a.len() - 1 {
        lemma_white_mono(a.drop_last(), b.drop_last());
    } else {
        lemma_white_strict(a.drop_last(), b.drop_last(), i);
    }
}

/// The suffix of the current path from `cycle_start` on: the cycle closed by an edge back to
/// `cycle_start`, or empty when `cycle_start` is not on the path.
pub fn extract_cycle_from_path(path: &Vec<usize>, cycle_start: usize) -> (r: Vec<usize>)
    ensures
        path@.contains(cycle_start) ==> exists|s: int|
            0 <= s < path@.len() && path@[s] == cycle_start && r@ == path@.subrange(
                s,
                path@.len() as int,
            ),
        !path@.contains(cycle_start) ==> r@.len() == 0,
{
    let mut s: usize = 0;
    while s < path.len()
        invariant
            s <= path@.len(),
            forall|j: int| 0 <= j < s ==> path@[j] != cycle_start,
        decreases path.len() - s,
    {
        if path[s] == cycle_start {
            let mut r: Vec<usize> = Vec::new();
            let mut k: usize = s;
            while k < path.len()
                invariant
                    s <= k <= path@.len(),
                    path@[s as int] == cycle_start,
                    r@ == path@.subrange(s as int, k as int),
                decreases path.len() - k,
            {
                r.push(path[k]);
                k = k + 1;
            }
            return r;
        }
        s = s + 1;
    }
    Vec::new()
}

/// Depth-first visit from `node`: marks it gray while it is on `path`, records the cycle
/// closed by each edge back to a gray node, and marks it black when done.
pub fn dfs_visit(
    node: usize,
    adj: &Vec<Vec<usize>>,
    color: &mut Vec<u8>,
    cycles: &mut Vec<Vec<usize>>,
    path: &mut Vec<usize>,
    fin: &mut Ghost<Seq<int>>,
    clock: &mut Ghost<int>,
)
    requires
        finish_ordered(adj@, old(color)@, old(cycles)@, old(fin)@, old(clock)@),
        adj_in_range(adj@),
        old(color)@.len() == adj@.len(),
        node < adj@.len(),
        old(color)@[node as int] == WHITE,
        is_adj_path(adj@, old(path)@),
        old(path)@.len() > 0 ==> adj@[old(path)@.last() as int]@.contains(node),
        forall|x: usize| (x as int) < adj@.len() ==> (old(color)@[x as int] == GRAY <==> old(path)@.contains(x)),
        forall|k: int| 0 <= k < old(cycles)@.len() ==> is_adj_cycle(adj@, #[trigger] old(cycles)@[k]@),
        self_loops_recorded(adj@, old(color)@, old(cycles)@),
    ensures
        finish_ordered(adj@, final(color)@, final(cycles)@, final(fin)@, final(clock)@),
        self_loops_recorded(adj@, final(color)@, final(cycles)@),
        extends(old(cycles)@, final(cycles)@),
        final(path)@ == old(path)@,
        final(color)@.len() == old(color)@.len(),
        final(color)@[node as int] == BLACK,
        forall|x: usize| (x as int) < adj@.len() && old(color)@[x as int] != WHITE && x != node ==> final(color)@[x as int] == old(color)@[x as int],
        forall|x: usize| (x as int) < adj@.len() && final(color)@[x as int] == WHITE ==> old(color)@[x as int] == WHITE,
        forall|x: usize| (x as int) < adj@.len() ==> (final(color)@[x as int] == GRAY <==> old(path)@.contains(x)),
        white_count(final(color)@) < white_count(old(color)@),
        forall|k: int| 0 <= k < final(cycles)@.len() ==> is_adj_cycle(adj@, #[trigger] final(cycles)@[k]@),
    decreases white_count(old(color)@),
{
    let ghost color0 = color@;
    let ghost path0 = path@;
    let ghost cycles0 = cycles@;
    let n = adj.len();
    color.set(node, GRAY);
    path.push(node);
    proof {
        assert(color@ == color0.update(node as int, GRAY));
        assert forall|x: int| 0 <= x < adj@.len() implies #[trigger] finished(color@, x) == finished(color0, x) by {
            if x != node as int {
                assert(color@[x] == color0[x]);
            }
        }
        assert forall|x: int, t: int|
            0 <= x < adj@.len() && finished(color@, x) && 0 <= t < adj@[x]@.len() && cycles@.len() == 0 implies finished(
                color@,
                #[trigger] adj@[x]@[t] as int,
            ) && fin@[adj@[x]@[t] as int] < fin@[x] by {
            assert(finished(color0, x));
            assert((adj@[x]@[t] as int) < adj@.len());
            assert(finished(color0, adj@[x]@[t] as int));
        }
        assert(finish_ordered(adj@, color@, cycles@, fin@, clock@));
        lemma_white_strict(color0, color@, node as int);
        assert forall|x: usize| (x as int) < adj@.len() implies (color@[x as int] == GRAY <==> path@.contains(x)) by {
            if x == node {
                assert(path@[path@.len() - 1] == node);
            } else {
                if path0.contains(x) {
                    let w = choose|w: int| 0 <= w < path0.len() && path0[w] == x;
                    assert(path@[w] == x);
                }
                if path@.contains(x) {
                    let w = choose|w: int| 0 <= w < path@.len() && path@[w] == x;
                    assert(w < path0.len());
                    assert(path0[w] == x);
                }
            }
        }
        assert(!path0.contains(node));
        assert forall|a: int, b: int| 0 <= a < b < path@.len() implies path@[a] != path@[b] by {
            if b == path@.len() - 1 {
                assert(path0[a] == path@[a]);
            }
        }
    }
    let neighbors = &adj[node];
    let mut i: usize = 0;
    while i < neighbors.len()
        invariant
            adj_in_range(adj@),
            node < adj@.len(),
            *neighbors == adj@[node as int],
            i <= neighbors@.len(),
            n == adj@.len(),
            color0 == old(color)@,
            path@ == path0.push(node),
            is_adj_path(adj@, path@),
            color@.len() == color0.len(),
            color0.len() == adj@.len(),
            color@[node as int] == GRAY,
            forall|x: usize| (x as int) < adj@.len() && color0[x as int] != WHITE ==> color@[x as int] == color0[x as int],
            forall|x: usize| (x as int) < adj@.len() && color@[x as int] == WHITE ==> color0[x as int] == WHITE,
            forall|x: usize| (x as int) < adj@.len() ==> (color@[x as int] == GRAY <==> path@.contains(x)),
            white_count(color@) < white_count(color0),
            forall|k: int| 0 <= k < cycles@.len() ==> is_adj_cycle(adj@, #[trigger] cycles@[k]@),
            cycles0 == old(cycles)@,
            extends(cycles0, cycles@),
            self_loops_recorded(adj@, color@, cycles@),
            neighbors@.take(i as int).contains(node) ==> exists|k: int| 0 <= k < cycles@.len() && cycles@[k]@ == seq![node],
            finish_ordered(adj@, color@, cycles@, fin@, clock@),
            cycles@.len() == 0 ==> forall|t: int| 0 <= t < i ==> finished(color@, #[trigger] neighbors@[t] as int),
        decreases neighbors@.len() - i,
    {
        let neighbor = neighbors[i];
        proof {
            assert(adj@[node as int]@[i as int] == neighbor);
            assert(adj@[node as int]@.contains(neighbor));
        }
        if neighbor == node {
            let mut single: Vec<usize> = Vec::new();
            single.push(node);
            proof {
                assert(single@.last() == node);
                assert(single@[0] == node);
                assert(single@ =~= seq![node]);
            }
            let ghost cb = cycles@;
            cycles.push(single);
            proof {
                assert(cycles@[cb.len() as int]@ == seq![node]);
                assert forall|x: usize|
                    (x as int) < adj@.len() && color@[x as int] != WHITE && color@[x as int] != GRAY && #[trigger] adj@[x as int]@.contains(x)
                        implies exists|k: int| 0 <= k < cycles@.len() && cycles@[k]@ == seq![x] by {
                    let k = choose|k: int| 0 <= k < cb.len() && cb[k]@ == seq![x];
                    assert(cycles@[k] == cb[k]);
                }
            }
        } else if color[neighbor] == WHITE {
            let ghost before = color@;
            let ghost cb = cycles@;
            assert(white_count(color@) < white_count(color0));
            dfs_visit(neighbor, adj, color, cycles, path, fin, clock);
            proof {
                if neighbors@.take(i as int).contains(node) {
                    let k = choose|k: int| 0 <= k < cb.len() && cb[k]@ == seq![node];
                    assert(cycles@[k] == cb[k]);
                }
            }
            proof {
                assert forall|x: int| 0 <= x < color@.len() && color@[x] == WHITE implies before[x] == WHITE by {
                    assert(color@[(x as usize) as int] == WHITE);
                }
                lemma_white_mono(before, color@);
            }
        } else if color[neighbor] == GRAY {
            let cycle = extract_cycle_from_path(path, neighbor);
            if cycle.len() > 0 {
                proof {
                    let s = choose|s: int|
                        0 <= s < path@.len() && path@[s] == neighbor && cycle@ == path@.subrange(
                            s,
                            path@.len() as int,
                        );
                    assert(cycle@.last() == node);
                    assert(cycle@[0] == neighbor);
                    assert forall|k: int| 0 <= k < cycle@.len() - 1 implies adj@[cycle@[k] as int]@.contains(
                        cycle@[k + 1],
                    ) by {
                        assert(cycle@[k] == path@[s + k]);
                        assert(cycle@[k + 1] == path@[s + k + 1]);
                    }
                    assert forall|a: int, b: int| 0 <= a < b < cycle@.len() implies cycle@[a] != cycle@[b] by {
                        assert(cycle@[a] == path@[s + a]);
                        assert(cycle@[b] == path@[s + b]);
                    }
                }
                let ghost cb = cycles@;
                cycles.push(cycle);
                proof {
                    assert forall|x: usize|
                        (x as int) < adj@.len() && color@[x as int] != WHITE && color@[x as int] != GRAY && #[trigger] adj@[x as int]@.contains(x)
                            implies exists|k: int| 0 <= k < cycles@.len() && cycles@[k]@ == seq![x] by {
                        let k = choose|k: int| 0 <= k < cb.len() && cb[k]@ == seq![x];
                        assert(cycles@[k] == cb[k]);
                    }
                    if neighbors@.take(i as int).contains(node) {
                        let k = choose|k: int| 0 <= k < cb.len() && cb[k]@ == seq![node];
                        assert(cycles@[k] == cb[k]);
                    }
                }
            }
        }
        proof {
            assert(neighbors@.take(i + 1) =~= neighbors@.take(i as int).push(neighbor));
            crate::topo_sort::lemma_push_contains(neighbors@.take(i as int), neighbor);
        }
        i = i + 1;
    }
    path.pop();
    proof {
        assert(path@ =~= path0);
    }
    let ghost before = color@;
    let ghost fin0 = fin@;
    let ghost clock0 = clock@;
    color.set(node, BLACK);
    *fin = Ghost(fin0.update(node as int, clock0));
    *clock = Ghost(clock0 + 1);
    proof {
        assert(fin@ == fin0.update(node as int, clock0));
        assert(clock@ == clock0 + 1);
        assert(finish_ordered(adj@, before, cycles@, fin0, clock0));
        assert(!finished(before, node as int));
        assert forall|x: int| 0 <= x < adj@.len() && finished(color@, x) implies fin@[x] < clock@ by {
            if x != node as int {
                assert(before[x] == color@[x]);
                assert(finished(before, x));
                assert(fin@[x] == fin0[x]);
            } else {
                assert(fin@[x] == clock0);
            }
        }
        if cycles@.len() == 0 {
            assert forall|x: int, t: int|
                0 <= x < adj@.len() && finished(color@, x) && 0 <= t < adj@[x]@.len() implies finished(
                    color@,
                    #[trigger] adj@[x]@[t] as int,
                ) && fin@[adj@[x]@[t] as int] < fin@[x] by {
                if x == node as int {
                    assert(finished(before, neighbors@[t] as int));
                    assert(adj@[x]@[t] == neighbors@[t]);
                } else {
                    assert(before[x] == color@[x]);
                    assert(finished(before, adj@[x]@[t] as int));
                }
            }
        }
        assert(neighbors@.take(neighbors@.len() as int) =~= neighbors@);
        assert forall|x: usize|
            (x as int) < adj@.len() && color@[x as int] != WHITE && color@[x as int] != GRAY && #[trigger] adj@[x as int]@.contains(x)
                implies exists|k: int| 0 <= k < cycles@.len() && cycles@[k]@ == seq![x] by {
            if x != node {
                assert(before[x as int] == color@[x as int]);
            }
        }
        lemma_white_mono(before, color@);
        assert forall|x: usize| (x as int) < adj@.len() implies (color@[x as int] == GRAY <==> path0.contains(x)) by {
            if x != node {
                if path0.contains(x) {
                    let w = choose|w: int| 0 <= w < path0.len() && path0[w] == x;
                    assert(before == color@.update(node as int, GRAY));
                    assert(path0.push(node)[w] == x);
                }
                if before[x as int] == GRAY {
                    let w = choose|w: int| 0 <= w < path0.push(node).len() && path0.push(node)[w] == x;
                    assert(w < path0.len());
                    assert(path0[w] == x);
                }
            } else {
                assert(!path0.contains(node));
            }
        }
    }
}

} // verus!

verus! {

/// Whether `b` is `a` rotated by some number of places.
fn rotation_of(a: &Vec<String>, b: &Vec<String>) -> (res: bool)
    ensures
        res == is_rotation(id_seq(a@), id_seq(b@)),
{
    let n = a.len();
    if n != b.len() {
        return false;
    }
    if n == 0 {
        return true;
    }
    let ghost sa = id_seq(a@);
    let ghost sb = id_seq(b@);
    let mut r: usize = 0;
    while r < n
        invariant
            n == a@.len(),
            n == b@.len(),
            sa == id_seq(a@),
            sb == id_seq(b@),
            r <= n,
            forall|q: int| 0 <= q < r ==> #[trigger] rotated(sa, q) != sb,
        decreases n - r,
    {
        let mut k: usize = 0;
        let mut same = true;
        while k < n && same
            invariant
                n == a@.len(),
                n == b@.len(),
                sa == id_seq(a@),
                sb == id_seq(b@),
                r < n,
                k <= n,
                same ==> forall|t: int| 0 <= t < k ==> rotated(sa, r as int)[t] == sb[t],
                !same ==> rotated(sa, r as int) != sb,
            decreases n - k + (if same { 1int } else { 0int }),
        {
            let src = if k < n - r {
                r + k
            } else {
                k - (n - r)
            };
            assert(rotated(sa, r as int)[k as int] == sa[src as int]);
            if a[src] != b[k] {
                same = false;
                assert(rotated(sa, r as int)[k as int] != sb[k as int]);
            } else {
                k = k + 1;
            }
        }
        if same {
            assert(rotated(sa, r as int) =~= sb);
            return true;
        }
        r = r + 1;
    }
    false
}

/// Each of `r` lists the same identifiers as some member of `src`.
pub open spec fn drawn_from(r: Seq<Vec<String>>, src: Seq<Vec<String>>) -> bool {
    forall|k: int|
        0 <= k < r.len() ==> exists|x: int| 0 <= x < src.len() && id_seq(#[trigger] r[k]@) == id_seq(src[x]@)
}

/// No member of `r` is a rotation of an earlier one.
pub open spec fn rotation_free(r: Seq<Vec<String>>) -> bool {
    forall|i: int, j: int| 0 <= i < j < r.len() ==> !is_rotation(id_seq(r[i]@), id_seq(r[j]@))
}

/// Each of the first `n` members of `src` is a rotation of some member of `r`.
pub open spec fn covers(r: Seq<Vec<String>>, src: Seq<Vec<String>>, n: int) -> bool {
    forall|x: int|
        0 <= x < n ==> exists|k: int| 0 <= k < r.len() && is_rotation(id_seq(r[k]@), id_seq(#[trigger] src[x]@))
}

proof fn lemma_keep_step(kept: Seq<Vec<String>>, src: Seq<Vec<String>>, j: int, copy: Vec<String>)
    requires
        0 <= j < src.len(),
        drawn_from(kept, src),
        rotation_free(kept),
        covers(kept, src, j),
        id_seq(copy@) == id_seq(src[j]@),
        forall|q: int| 0 <= q < kept.len() ==> !is_rotation(id_seq(kept[q]@), id_seq(src[j]@)),
    ensures
        drawn_from(kept.push(copy), src),
        rotation_free(kept.push(copy)),
        covers(kept.push(copy), src, j + 1),
{
    let nk = kept.push(copy);
    assert forall|q: int| 0 <= q < nk.len() implies exists|x: int|
        0 <= x < src.len() && id_seq(#[trigger] nk[q]@) == id_seq(src[x]@) by {
        if q < kept.len() {
            assert(nk[q] == kept[q]);
        } else {
            assert(nk[q] == copy);
        }
    }
    assert forall|x: int| 0 <= x < j + 1 implies exists|q: int|
        0 <= q < nk.len() && is_rotation(id_seq(nk[q]@), id_seq(#[trigger] src[x]@)) by {
        if x < j {
            let q = choose|q: int| 0 <= q < kept.len() && is_rotation(id_seq(kept[q]@), id_seq(src[x]@));
            assert(nk[q] == kept[q]);
        } else {
            let s = id_seq(copy@);
            assert(nk[kept.len() as int] == copy);
            assert(rotated(s, 0) =~= s);
            assert(is_rotation(id_seq(nk[kept.len() as int]@), s));
        }
    }
    assert forall|a: int, b: int| 0 <= a < b < nk.len() implies !is_rotation(
        id_seq(nk[a]@),
        id_seq(nk[b]@),
    ) by {
        assert(nk[a] == kept[a]);
        if b < kept.len() {
            assert(nk[b] == kept[b]);
        } else {
            assert(nk[b] == copy);
        }
    }
}

/// Whether some member of `kept` has `c` as a rotation.
fn seen_rotation(kept: &Vec<Vec<String>>, c: &Vec<String>) -> (seen: bool)
    ensures
        seen == exists|q: int| 0 <= q < kept@.len() && is_rotation(id_seq(kept@[q]@), id_seq(c@)),
{
    let mut k: usize = 0;
    while k < kept.len()
        invariant
            k <= kept@.len(),
            forall|q: int| 0 <= q < k ==> !is_rotation(id_seq(kept@[q]@), id_seq(c@)),
        decreases kept.len() - k,
    {
        if rotation_of(&kept[k], c) {
            return true;
        }
        k = k + 1;
    }
    false
}

/// Drops every cycle that is a rotation of one kept before it; the kept ones stay in
/// first-discovery order.
pub fn deduplicate_cycles(cycles: Vec<Vec<String>>) -> (r: Vec<Vec<String>>)
    ensures
        drawn_from(r@, cycles@),
        rotation_free(r@),
        covers(r@, cycles@, cycles@.len() as int),
{
    let mut kept: Vec<Vec<String>> = Vec::new();
    let mut j: usize = 0;
    while j < cycles.len()
        invariant
            j <= cycles@.len(),
            drawn_from(kept@, cycles@),
            rotation_free(kept@),
            covers(kept@, cycles@, j as int),
        decreases cycles.len() - j,
    {
        let c = &cycles[j];
        if !seen_rotation(&kept, c) {
            let copy = clone_ids(c);
            proof {
                lemma_keep_step(kept@, cycles@, j as int, copy);
            }
            kept.push(copy);
        } else {
            proof {
                let q = choose|q: int| 0 <= q < kept@.len() && is_rotation(id_seq(kept@[q]@), id_seq(c@));
                assert(is_rotation(id_seq(kept@[q]@), id_seq(cycles@[j as int]@)));
            }
        }
        j = j + 1;
    }
    kept
}

/// A copy of a list of identifiers.
pub fn clone_ids(v: &Vec<String>) -> (r: Vec<String>)
    ensures
        id_seq(r@) == id_seq(v@),
        r@.len() == v@.len(),
{
    let mut r: Vec<String> = Vec::new();
    let mut i: usize = 0;
    while i < v.len()
        invariant
            i <= v@.len(),
            r@.len() == i,
            forall|t: int| 0 <= t < i ==> r@[t]@ == v@[t]@,
        decreases v.len() - i,
    {
        r.push(v[i].clone());
        i = i + 1;
    }
    proof {
        assert(id_seq(r@) =~= id_seq(v@));
    }
    r
}

} // verus!

verus! {

pub proof fn lemma_adj_in_range(g: LogicalGraph, adj: Seq<Vec<usize>>)
    requires
        is_adjacency(g, adj, true),
        g.propositions@.len() <= usize::MAX,
    ensures
        adj_in_range(adj),
{
    assert forall|i: int, t: int| 0 <= i < adj.len() && 0 <= t < adj[i]@.len() implies (
    #[trigger] adj[i]@[t] as int) < adj.len() by {
        lemma_dependency_targets(g, i, 0, g.relationships@.len() as int);
    }
}

proof fn lemma_adj_cycle_is_dependency(g: LogicalGraph, adj: Seq<Vec<usize>>, c: Seq<usize>)
    requires
        is_adjacency(g, adj, true),
        g.propositions@.len() <= usize::MAX,
        is_adj_cycle(adj, c),
    ensures
        is_dependency_cycle(g, c),
{
    let n = g.relationships@.len() as int;
    assert forall|k: int| 0 <= k < c.len() - 1 implies dep_edge(g, #[trigger] c[k] as int, c[k + 1] as int) by {
        assert(adj[c[k] as int]@ == edge_targets(g, c[k] as int, n, true));
        lemma_dependency_targets(g, c[k] as int, c[k + 1], n);
    }
    assert(adj[c.last() as int]@ == edge_targets(g, c.last() as int, n, true));
    lemma_dependency_targets(g, c.last() as int, c[0], n);
}

proof fn lemma_self_loops_named(
    g: LogicalGraph,
    adj: Seq<Vec<usize>>,
    color: Seq<u8>,
    found: Seq<Vec<usize>>,
    named: Seq<Vec<String>>,
)
    requires
        is_adjacency(g, adj, true),
        g.propositions@.len() <= usize::MAX,
        color.len() == adj.len(),
        forall|x: usize| (x as int) < adj.len() ==> color[x as int] != WHITE && color[x as int] != GRAY,
        self_loops_recorded(adj, color, found),
        named.len() == found.len(),
        forall|q: int| 0 <= q < named.len() ==> id_seq(#[trigger] named[q]@) == ids_at(g, found[q]@),
    ensures
        forall|x: int|
            0 <= x < g.propositions@.len() && #[trigger] dep_edge(g, x, x) ==> exists|q: int|
                0 <= q < named.len() && id_seq(named[q]@) == seq![g.propositions@[x].id@],
{
    assert forall|x: int|
        0 <= x < g.propositions@.len() && #[trigger] dep_edge(g, x, x) implies exists|q: int|
            0 <= q < named.len() && id_seq(named[q]@) == seq![g.propositions@[x].id@] by {
        let xu = x as usize;
        assert(adj[x]@ == edge_targets(g, x, g.relationships@.len() as int, true));
        lemma_dependency_targets(g, x, xu, g.relationships@.len() as int);
        assert(adj[xu as int]@.contains(xu));
        assert(color[xu as int] != WHITE);
        let q = choose|q: int| 0 <= q < found.len() && found[q]@ == seq![xu];
        assert(ids_at(g, found[q]@) =~= seq![g.propositions@[x].id@]);
        assert(id_seq(named[q]@) == ids_at(g, found[q]@));
    }
}

proof fn lemma_fin_chain(
    adj: Seq<Vec<usize>>,
    color: Seq<u8>,
    cycles: Seq<Vec<usize>>,
    fin: Seq<int>,
    clock: int,
    c: Seq<usize>,
    k: int,
)
    requires
        is_adj_cycle(adj, c),
        cycles.len() == 0,
        finish_ordered(adj, color, cycles, fin, clock),
        forall|x: usize| (x as int) < adj.len() ==> finished(color, x as int),
        0 <= k < c.len(),
    ensures
        fin[c[k] as int] <= fin[c[0] as int] - k,
    decreases k,
{
    if k > 0 {
        lemma_fin_chain(adj, color, cycles, fin, clock, c, k - 1);
        let x = c[k - 1] as int;
        let t = choose|t: int| 0 <= t < adj[x]@.len() && adj[x]@[t] == c[k];
        assert(finished(color, (c[k - 1] as usize) as int));
    }
}

proof fn lemma_no_cycle_when_ordered(
    g: LogicalGraph,
    adj: Seq<Vec<usize>>,
    color: Seq<u8>,
    cycles: Seq<Vec<usize>>,
    fin: Seq<int>,
    clock: int,
    c: Seq<usize>,
)
    requires
        is_adjacency(g, adj, true),
        g.propositions@.len() <= usize::MAX,
        cycles.len() == 0,
        finish_ordered(adj, color, cycles, fin, clock),
        forall|x: usize| (x as int) < adj.len() ==> finished(color, x as int),
    ensures
        !is_dependency_cycle(g, c),
{
    if !is_dependency_cycle(g, c) {
        return;
    }
    let m = g.relationships@.len() as int;
    assert forall|k: int| 0 <= k < c.len() - 1 implies adj[c[k] as int]@.contains(c[k + 1]) by {
        assert(dep_edge(g, c[k] as int, c[k + 1] as int));
        assert(adj[c[k] as int]@ == edge_targets(g, c[k] as int, m, true));
        lemma_dependency_targets(g, c[k] as int, c[k + 1], m);
    }
    assert(adj[c.last() as int]@ == edge_targets(g, c.last() as int, m, true));
    lemma_dependency_targets(g, c.last() as int, c[0], m);
    assert(is_adj_cycle(adj, c));
    lemma_fin_chain(adj, color, cycles, fin, clock, c, c.len() - 1);
    let x = c.last() as int;
    let t = choose|t: int| 0 <= t < adj[x]@.len() && adj[x]@[t] == c[0];
    assert(finished(color, (c.last() as usize) as int));
}

proof fn lemma_singletons_kept(g: LogicalGraph, named: Seq<Vec<String>>, r: Seq<Vec<String>>)
    requires
        covers(r, named, named.len() as int),
        forall|x: int|
            0 <= x < g.propositions@.len() && #[trigger] dep_edge(g, x, x) ==> exists|q: int|
                0 <= q < named.len() && id_seq(named[q]@) == seq![g.propositions@[x].id@],
    ensures
        forall|x: int|
            0 <= x < g.propositions@.len() && #[trigger] dep_edge(g, x, x) ==> exists|k: int|
                0 <= k < r.len() && id_seq(r[k]@) == seq![g.propositions@[x].id@],
        named.len() > 0 ==> r.len() > 0,
{
    if named.len() > 0 {
        let k = choose|k: int| 0 <= k < r.len() && is_rotation(id_seq(r[k]@), id_seq(#[trigger] named[0]@));
    }
    assert forall|x: int|
        0 <= x < g.propositions@.len() && #[trigger] dep_edge(g, x, x) implies exists|k: int|
            0 <= k < r.len() && id_seq(r[k]@) == seq![g.propositions@[x].id@] by {
        let one = seq![g.propositions@[x].id@];
        let q = choose|q: int| 0 <= q < named.len() && id_seq(named[q]@) == one;
        let k = choose|k: int| 0 <= k < r.len() && is_rotation(id_seq(r[k]@), id_seq(#[trigger] named[q]@));
        let a = id_seq(r[k]@);
        assert(rotated(a, 0) =~= a);
    }
}

/// Identifiers of the propositions at the given positions.
pub fn ids_of_positions(graph: &LogicalGraph, c: &Vec<usize>) -> (r: Vec<String>)
    requires
        forall|k: int| 0 <= k < c@.len() ==> (c@[k] as int) < graph.propositions@.len(),
    ensures
        id_seq(r@) == ids_at(*graph, c@),
{
    let mut r: Vec<String> = Vec::new();
    let mut i: usize = 0;
    while i < c.len()
        invariant
            i <= c@.len(),
            forall|k: int| 0 <= k < c@.len() ==> (c@[k] as int) < graph.propositions@.len(),
            r@.len() == i,
            forall|t: int| 0 <= t < i ==> r@[t]@ == graph.propositions@[c@[t] as int].id@,
        decreases c.len() - i,
    {
        r.push(graph.propositions[c[i]].id.clone());
        i = i + 1;
    }
    proof {
        assert(id_seq(r@) =~= ids_at(*graph, c@));
    }
    r
}

/// All cycles of the dependency subgraph that a depth-first search with three-colour marking
/// closes, each as the identifiers along it, in first-discovery order; a cycle that is a
/// rotation of an earlier one is dropped. `contradicts` and `attacks` edges never take part.
#[verifier::rlimit(40)]
pub fn detect_cycles(graph: &LogicalGraph) -> (r: Vec<Vec<String>>)
    ensures
        forall|k: int| 0 <= k < r@.len() ==> names_dependency_cycle(*graph, id_seq(#[trigger] r@[k]@)),
        rotation_free(r@),
        forall|x: int|
            0 <= x < graph.propositions@.len() && #[trigger] dep_edge(*graph, x, x) ==> exists|k: int|
                0 <= k < r@.len() && id_seq(r@[k]@) == seq![graph.propositions@[x].id@],
        (exists|c: Seq<usize>| is_dependency_cycle(*graph, c)) ==> r@.len() > 0,
{
    let n = graph.propositions.len();
    let adj = graph.get_dependency_adjacency();
    proof {
        lemma_adj_in_range(*graph, adj@);
    }
    let mut color: Vec<u8> = Vec::new();
    let mut i: usize = 0;
    while i < n
        invariant
            i <= n,
            color@.len() == i,
            forall|x: int| 0 <= x < i ==> color@[x] == WHITE,
        decreases n - i,
    {
        color.push(WHITE);
        i = i + 1;
    }
    let mut found: Vec<Vec<usize>> = Vec::new();
    let mut fin: Ghost<Seq<int>> = Ghost(Seq::new(n as nat, |i: int| 0int));
    let mut clock: Ghost<int> = Ghost(0int);
    let mut start: usize = 0;
    while start < n
        invariant
            n == graph.propositions@.len(),
            n == adj@.len(),
            adj_in_range(adj@),
            is_adjacency(*graph, adj@, true),
            start <= n,
            color@.len() == n,
            forall|x: usize| (x as int) < n ==> color@[x as int] != GRAY,
            forall|x: usize| (x as int) < start ==> color@[x as int] != WHITE,
            forall|k: int| 0 <= k < found@.len() ==> is_adj_cycle(adj@, #[trigger] found@[k]@),
            self_loops_recorded(adj@, color@, found@),
            finish_ordered(adj@, color@, found@, fin@, clock@),
        decreases n - start,
    {
        if color[start] == WHITE {
            let mut path: Vec<usize> = Vec::new();
            proof {
                assert forall|x: usize| (x as int) < adj@.len() implies (color@[x as int] == GRAY <==> path@.contains(x)) by {}
            }
            dfs_visit(start, &adj, &mut color, &mut found, &mut path, &mut fin, &mut clock);
        }
        start = start + 1;
    }
    let mut named: Vec<Vec<String>> = Vec::new();
    let mut k: usize = 0;
    while k < found.len()
        invariant
            n == graph.propositions@.len(),
            n == adj@.len(),
            is_adjacency(*graph, adj@, true),
            k <= found@.len(),
            forall|q: int| 0 <= q < found@.len() ==> is_adj_cycle(adj@, #[trigger] found@[q]@),
            named@.len() == k,
            forall|q: int| 0 <= q < k ==> names_dependency_cycle(*graph, id_seq(#[trigger] named@[q]@)),
            forall|q: int| 0 <= q < k ==> id_seq(#[trigger] named@[q]@) == ids_at(*graph, found@[q]@),
        decreases found.len() - k,
    {
        let ids = ids_of_positions(graph, &found[k]);
        proof {
            lemma_adj_cycle_is_dependency(*graph, adj@, found@[k as int]@);
        }
        named.push(ids);
        k = k + 1;
    }
    proof {
        lemma_self_loops_named(*graph, adj@, color@, found@, named@);
        if exists|c: Seq<usize>| is_dependency_cycle(*graph, c) {
            let c = choose|c: Seq<usize>| is_dependency_cycle(*graph, c);
            if found@.len() == 0 {
                lemma_no_cycle_when_ordered(*graph, adj@, color@, found@, fin@, clock@, c);
            }
        }
    }
    let ghost named_v = named@;
    let r = deduplicate_cycles(named);
    proof {
        lemma_singletons_kept(*graph, named_v, r@);

        assert forall|k: int| 0 <= k < r@.len() implies names_dependency_cycle(*graph, id_seq(#[trigger] r@[k]@)) by {
            let x = choose|x: int| 0 <= x < named@.len() && id_seq(r@[k]@) == id_seq(named@[x]@);
            assert(names_dependency_cycle(*graph, id_seq(named@[x]@)));
        }
    }
    r
}

} // verus!
