use vstd::prelude::*;

verus! {

/// The role a proposition plays in an argument.
#[derive(Clone, Copy, Debug, PartialEq, Eq, Structural)]
pub enum PropositionKind {
    Claim,
    Evidence,
    Assumption,
    Constraint,
    Risk,
}

/// How strongly a proposition is asserted.
#[derive(Clone, Copy, Debug, PartialEq, Eq, Structural)]
pub enum Confidence {
    High,
    Medium,
    Low,
    UnstatedAsAbsolute,
}

/// The logical relation carried by an edge.
#[derive(Clone, Copy, Debug, PartialEq, Eq, Structural)]
pub enum RelationshipKind {
    Supports,
    Contradicts,
    DependsOn,
    Attacks,
    Assumes,
}

/// Qualitative weight of an edge.
#[derive(Clone, Copy, Debug, PartialEq, Eq, Structural)]
pub enum Strength {
    Strong,
    Moderate,
    Weak,
}

/// A node of the argument graph.
#[derive(Debug)]
pub struct Proposition {
    pub id: String,
    pub statement: String,
    pub formal_expression: String,
    pub prop_type: PropositionKind,
    pub confidence: Confidence,
    pub is_implicit: bool,
    pub is_load_bearing: bool,
    pub is_anchored: bool,
}

/// A directed edge between two propositions, named by their identifiers.
#[derive(Debug)]
pub struct Relationship {
    pub id: String,
    pub from_id: String,
    pub to_id: String,
    pub rel_type: RelationshipKind,
    pub strength: Strength,
    pub label: Option<String>,
}

/// The argument under analysis: propositions and the relationships between them.
#[derive(Debug)]
pub struct LogicalGraph {
    pub propositions: Vec<Proposition>,
    pub relationships: Vec<Relationship>,
}

/// A contradiction found between propositions.
#[derive(Debug)]
pub struct Contradiction {
    pub id: String,
    pub proposition_ids: Vec<String>,
    pub contradiction_type: ContradictionKind,
    pub severity: Severity,
    pub formal_proof: String,
    pub human_explanation: String,
}

/// The nature of a contradiction.
#[derive(Clone, Copy, Debug, PartialEq, Eq, Structural)]
pub enum ContradictionKind {
    Logical,
    Temporal,
    Empirical,
}

/// Severity of a contradiction.
#[derive(Clone, Copy, Debug, PartialEq, Eq, Structural)]
pub enum Severity {
    Critical,
    Major,
    Minor,
}

/// A structural fallacy found in the argument.
#[derive(Debug)]
pub struct Fallacy {
    pub id: String,
    pub name: String,
    pub description: String,
    pub affected_node_ids: Vec<String>,
    pub pattern_type: FallacyPattern,
}

/// The structural signature a fallacy was recognised by.
#[derive(Clone, Copy, Debug, PartialEq, Eq, Structural)]
pub enum FallacyPattern {
    Cycle,
    HastyGeneralization,
    FalseDilemma,
    AppealToAuthority,
}

/// A cognitive bias found in the argument.
#[derive(Debug)]
pub struct CognitiveBias {
    pub id: String,
    pub name: String,
    pub kahneman_reference: String,
    pub description: String,
    pub affected_node_ids: Vec<String>,
    pub severity: BiasSeverity,
    pub system: u8,
}

/// Severity of a bias, graded by the centrality of the node it sits on.
#[derive(Clone, Copy, Debug, PartialEq, Eq, Structural)]
pub enum BiasSeverity {
    High,
    Medium,
    Low,
}

/// Whether an edge kind creates a logical dependency.
pub open spec fn is_dependency(kind: RelationshipKind) -> bool {
    kind == RelationshipKind::Supports || kind == RelationshipKind::DependsOn
        || kind == RelationshipKind::Assumes
}

/// The first position at or after `k` whose proposition carries identifier `id`.
pub open spec fn lookup_from(props: Seq<Proposition>, id: Seq<char>, k: int) -> Option<int>
    decreases props.len() - k,
{
    if k < 0 || k >= props.len() {
        None
    } else if props[k].id@ == id {
        Some(k)
    } else {
        lookup_from(props, id, k + 1)
    }
}

/// The position of the first proposition carrying identifier `id`.
pub open spec fn lookup(props: Seq<Proposition>, id: Seq<char>) -> Option<int> {
    lookup_from(props, id, 0)
}

/// Some relationship is a dependency edge from the proposition at `u` to the one at `v`.
pub open spec fn dep_edge(g: LogicalGraph, u: int, v: int) -> bool {
    dep_edge_before(g, u, v, g.relationships@.len() as int)
}

/// Relationships that end at identifier `id` and have kind `k1` or `k2`, in input order.
pub open spec fn incoming_edges(
    rels: Seq<Relationship>,
    id: Seq<char>,
    k1: RelationshipKind,
    k2: RelationshipKind,
) -> Seq<Relationship> {
    rels.filter(|r: Relationship| r.to_id@ == id && (r.rel_type == k1 || r.rel_type == k2))
}

/// The `supports` edges that end at identifier `id`.
pub open spec fn support_edges(rels: Seq<Relationship>, id: Seq<char>) -> Seq<Relationship> {
    incoming_edges(rels, id, RelationshipKind::Supports, RelationshipKind::Supports)
}

/// Number of `supports` edges that end at identifier `id`.
pub open spec fn support_count(rels: Seq<Relationship>, id: Seq<char>) -> nat {
    support_edges(rels, id).len()
}

/// Sources of the `supports` edges that end at identifier `id`.
pub open spec fn supporter_ids(rels: Seq<Relationship>, id: Seq<char>) -> Seq<Seq<char>> {
    support_edges(rels, id).map_values(|r: Relationship| r.from_id@)
}

pub proof fn lemma_lookup_from_found(props: Seq<Proposition>, id: Seq<char>, k: int)
    requires
        0 <= k <= props.len(),
        forall|j: int| 0 <= j < k ==> props[j].id@ != id,
    ensures
        lookup(props, id) == lookup_from(props, id, k),
    decreases k,
{
    if k > 0 {
        lemma_lookup_from_found(props, id, k - 1);
    }
}

pub proof fn lemma_lookup_from_none(props: Seq<Proposition>, id: Seq<char>, k: int)
    requires
        0 <= k <= props.len(),
        forall|j: int| k <= j < props.len() ==> props[j].id@ != id,
    ensures
        lookup_from(props, id, k) == None::<int>,
    decreases props.len() - k,
{
    if k < props.len() {
        lemma_lookup_from_none(props, id, k + 1);
    }
}

/// What `lookup` yields: the first matching position, or nothing when no proposition matches.
pub proof fn lemma_lookup_spec(props: Seq<Proposition>, id: Seq<char>)
    ensures
        match lookup(props, id) {
            Some(i) => 0 <= i < props.len() && props[i].id@ == id && forall|j: int|
                0 <= j < i ==> props[j].id@ != id,
            None => forall|j: int| 0 <= j < props.len() ==> props[j].id@ != id,
        },
{
    lemma_lookup_from_spec(props, id, 0);
}

proof fn lemma_lookup_from_spec(props: Seq<Proposition>, id: Seq<char>, k: int)
    requires
        0 <= k <= props.len(),
    ensures
        match lookup_from(props, id, k) {
            Some(i) => k <= i < props.len() && props[i].id@ == id && forall|j: int|
                k <= j < i ==> props[j].id@ != id,
            None => forall|j: int| k <= j < props.len() ==> props[j].id@ != id,
        },
    decreases props.len() - k,
{
    if k < props.len() && props[k].id@ != id {
        lemma_lookup_from_spec(props, id, k + 1);
    }
}

/// Whether relationship `r` counts as an edge of the adjacency being built.
pub open spec fn counts_as_edge(r: Relationship, dependency_only: bool) -> bool {
    !dependency_only || is_dependency(r.rel_type)
}

/// Targets, in relationship order, of the edges among the first `k` relationships that leave
/// the proposition at `i` and whose endpoints both name a proposition.
pub open spec fn edge_targets(g: LogicalGraph, i: int, k: int, dependency_only: bool) -> Seq<usize>
    decreases k,
{
    if k <= 0 || k > g.relationships@.len() {
        Seq::empty()
    } else {
        let prev = edge_targets(g, i, k - 1, dependency_only);
        let r = g.relationships@[k - 1];
        if counts_as_edge(r, dependency_only) && lookup(g.propositions@, r.from_id@) == Some(i)
            && lookup(g.propositions@, r.to_id@) is Some {
            prev.push(lookup(g.propositions@, r.to_id@).unwrap() as usize)
        } else {
            prev
        }
    }
}

/// Whether `adj` holds, for every proposition, the targets of its edges in relationship order.
pub open spec fn is_adjacency(g: LogicalGraph, adj: Seq<Vec<usize>>, dependency_only: bool) -> bool {
    adj.len() == g.propositions@.len() && forall|i: int|
        0 <= i < adj.len() ==> #[trigger] adj[i]@ == edge_targets(
            g,
            i,
            g.relationships@.len() as int,
            dependency_only,
        )
}

/// Each adjacency target is a proposition, and `j` is a dependency target of `i` exactly
/// when a dependency edge leads from `i` to `j`.
pub proof fn lemma_dependency_targets(g: LogicalGraph, i: int, j: usize, k: int)
    requires
        0 <= k <= g.relationships@.len(),
        g.propositions@.len() <= usize::MAX,
    ensures
        forall|t: int|
            0 <= t < edge_targets(g, i, k, true).len() ==> (edge_targets(g, i, k, true)[t] as int)
                < g.propositions@.len(),
        edge_targets(g, i, k, true).contains(j) ==> dep_edge_before(g, i, j as int, k),
        dep_edge_before(g, i, j as int, k) ==> edge_targets(g, i, k, true).contains(j),
    decreases k,
{
    if k > 0 {
        lemma_lookup_spec(g.propositions@, g.relationships@[k - 1].to_id@);
        lemma_dependency_targets(g, i, j, k - 1);
        let prev = edge_targets(g, i, k - 1, true);
        let r = g.relationships@[k - 1];
        if is_dependency(r.rel_type) && lookup(g.propositions@, r.from_id@) == Some(i)
            && lookup(g.propositions@, r.to_id@) is Some {
            let t = lookup(g.propositions@, r.to_id@).unwrap();
            assert(edge_targets(g, i, k, true) == prev.push(t as usize));
            if edge_targets(g, i, k, true).contains(j) && !prev.contains(j) {
                assert(t == j as int);
                assert(0 <= k - 1 < k && is_dependency(g.relationships@[k - 1].rel_type) && lookup(
                    g.propositions@,
                    g.relationships@[k - 1].from_id@,
                ) == Some(i) && lookup(g.propositions@, g.relationships@[k - 1].to_id@) == Some(
                    j as int,
                ));
            }
            if dep_edge_before(g, i, j as int, k) && !dep_edge_before(g, i, j as int, k - 1) {
                let w = choose|w: int|
                    0 <= w < k && is_dependency(g.relationships@[w].rel_type) && lookup(
                        g.propositions@,
                        g.relationships@[w].from_id@,
                    ) == Some(i) && lookup(g.propositions@, g.relationships@[w].to_id@) == Some(
                        j as int,
                    );
                assert(w == k - 1);
                assert(edge_targets(g, i, k, true)[prev.len() as int] == j);
            }
            if prev.contains(j) {
                let x = choose|x: int| 0 <= x < prev.len() && prev[x] == j;
                assert(edge_targets(g, i, k, true)[x] == j);
                assert(dep_edge_before(g, i, j as int, k - 1));
            }
        } else {
            if dep_edge_before(g, i, j as int, k) {
                let w = choose|w: int|
                    0 <= w < k && is_dependency(g.relationships@[w].rel_type) && lookup(
                        g.propositions@,
                        g.relationships@[w].from_id@,
                    ) == Some(i) && lookup(g.propositions@, g.relationships@[w].to_id@) == Some(
                        j as int,
                    );
                if w == k - 1 {
                    assert(false);
                }
                assert(dep_edge_before(g, i, j as int, k - 1));
            }
            if edge_targets(g, i, k, true).contains(j) {
                assert(dep_edge_before(g, i, j as int, k - 1));
            }
        }
    }
}

/// Some dependency edge among the first `k` relationships leads from `i` to `j`.
pub open spec fn dep_edge_before(g: LogicalGraph, i: int, j: int, k: int) -> bool {
    exists|w: int|
        0 <= w < k && is_dependency(g.relationships@[w].rel_type) && lookup(
            g.propositions@,
            g.relationships@[w].from_id@,
        ) == Some(i) && lookup(g.propositions@, g.relationships@[w].to_id@) == Some(j)
}

/// Filtering a prefix one element longer adds at most that element.
pub proof fn lemma_take_filter_step<A>(s: Seq<A>, i: int, pred: spec_fn(A) -> bool)
    requires
        0 <= i < s.len(),
    ensures
        s.take(i + 1).filter(pred) == (if pred(s[i]) {
            s.take(i).filter(pred).push(s[i])
        } else {
            s.take(i).filter(pred)
        }),
{
    assert(s.take(i + 1) =~= s.take(i).push(s[i]));
    s.take(i).lemma_filter_push(s[i], pred);
}

/// Whether an edge kind creates a logical dependency.
pub fn is_dependency_edge(rel_type: RelationshipKind) -> (r: bool)
    ensures
        r == is_dependency(rel_type),
{
    match rel_type {
        RelationshipKind::Supports | RelationshipKind::DependsOn | RelationshipKind::Assumes => true,
        _ => false,
    }
}

/// Position of the first proposition with the given identifier.
pub fn find_index(props: &Vec<Proposition>, id: &String) -> (r: Option<usize>)
    ensures
        r matches Some(i) ==> i < props@.len() && lookup(props@, id@) == Some(i as int),
        r is None ==> lookup(props@, id@) == None::<int>,
{
    let mut i: usize = 0;
    while i < props.len()
        invariant
            i <= props.len(),
            forall|j: int| 0 <= j < i ==> props@[j].id@ != id@,
        decreases props.len() - i,
    {
        if props[i].id == *id {
            proof {
                lemma_lookup_from_found(props@, id@, i as int);
            }
            return Some(i);
        }
        i = i + 1;
    }
    proof {
        lemma_lookup_from_none(props@, id@, 0);
    }
    None
}

/// Positions of the relationships that end at `id` and have kind `k1` or `k2`.
pub fn incoming_positions(
    graph: &LogicalGraph,
    id: &String,
    k1: RelationshipKind,
    k2: RelationshipKind,
) -> (r: Vec<usize>)
    ensures
        r@.map_values(|w: usize| graph.relationships@[w as int]) == incoming_edges(
            graph.relationships@,
            id@,
            k1,
            k2,
        ),
        forall|t: int| 0 <= t < r@.len() ==> (r@[t] as int) < graph.relationships@.len(),
{
    let ghost rels = graph.relationships@;
    let ghost pred = |r: Relationship| r.to_id@ == id@ && (r.rel_type == k1 || r.rel_type == k2);
    let mut r: Vec<usize> = Vec::new();
    let mut i: usize = 0;
    while i < graph.relationships.len()
        invariant
            rels == graph.relationships@,
            pred == (|r: Relationship| r.to_id@ == id@ && (r.rel_type == k1 || r.rel_type == k2)),
            i <= rels.len(),
            r@.map_values(|w: usize| rels[w as int]) == rels.take(i as int).filter(pred),
            forall|t: int| 0 <= t < r@.len() ==> (r@[t] as int) < rels.len(),
        decreases rels.len() - i,
    {
        proof {
            lemma_take_filter_step(rels, i as int, pred);
        }
        let rel = &graph.relationships[i];
        if rel.to_id == *id && (rel.rel_type == k1 || rel.rel_type == k2) {
            let ghost before = r@;
            r.push(i);
            proof {
                assert(r@.map_values(|w: usize| rels[w as int]) =~= before.map_values(
                    |w: usize| rels[w as int],
                ).push(rels[i as int]));
            }
        }
        i = i + 1;
    }
    proof {
        assert(rels.take(i as int) =~= rels);
    }
    r
}

/// Sources of the `supports` edges that end at `id`, in relationship order.
pub fn supporters_of(graph: &LogicalGraph, id: &String) -> (r: Vec<String>)
    ensures
        r@.map_values(|s: String| s@) == supporter_ids(graph.relationships@, id@),
{
    let pos = incoming_positions(graph, id, RelationshipKind::Supports, RelationshipKind::Supports);
    let ghost es = support_edges(graph.relationships@, id@);
    let mut r: Vec<String> = Vec::new();
    let mut k: usize = 0;
    while k < pos.len()
        invariant
            es == support_edges(graph.relationships@, id@),
            pos@.map_values(|w: usize| graph.relationships@[w as int]) == es,
            forall|t: int| 0 <= t < pos@.len() ==> (pos@[t] as int) < graph.relationships@.len(),
            k <= pos@.len(),
            r@.len() == k,
            forall|t: int| 0 <= t < k ==> r@[t]@ == es[t].from_id@,
        decreases pos.len() - k,
    {
        let rel = &graph.relationships[pos[k]];
        proof {
            assert(pos@.map_values(|w: usize| graph.relationships@[w as int])[k as int] == *rel);
        }
        r.push(rel.from_id.clone());
        k = k + 1;
    }
    proof {
        assert(r@.map_values(|s: String| s@) =~= es.map_values(|r: Relationship| r.from_id@));
    }
    r
}

impl LogicalGraph {
    /// Look up a proposition by identifier: the first one that carries it.
    pub fn get_proposition(&self, id: &String) -> (r: Option<&Proposition>)
        ensures
            match lookup(self.propositions@, id@) {
                Some(i) => r == Some(&self.propositions@[i]),
                None => r is None,
            },
    {
        proof {
            lemma_lookup_spec(self.propositions@, id@);
        }
        match find_index(&self.propositions, id) {
            Some(i) => Some(&self.propositions[i]),
            None => None,
        }
    }

    /// Index-based adjacency: for each proposition, in relationship order, the positions of
    /// the targets of its edges; with `dependency_only`, of its dependency edges alone.
    /// Edges whose endpoints name no proposition are left out.
    pub fn adjacency(&self, dependency_only: bool) -> (adj: Vec<Vec<usize>>)
        ensures
            is_adjacency(*self, adj@, dependency_only),
    {
        let n = self.propositions.len();
        let mut adj: Vec<Vec<usize>> = Vec::new();
        let mut i: usize = 0;
        while i < n
            invariant
                n == self.propositions@.len(),
                i <= n,
                adj@.len() == i,
                forall|x: int| 0 <= x < i ==> (#[trigger] adj@[x])@ == Seq::<usize>::empty(),
            decreases n - i,
        {
            adj.push(Vec::new());
            i = i + 1;
        }
        let mut k: usize = 0;
        while k < self.relationships.len()
            invariant
                n == self.propositions@.len(),
                k <= self.relationships@.len(),
                adj@.len() == n,
                forall|x: int|
                    0 <= x < n ==> (#[trigger] adj@[x])@ == edge_targets(
                        *self,
                        x,
                        k as int,
                        dependency_only,
                    ),
            decreases self.relationships.len() - k,
        {
            let rel = &self.relationships[k];
            if !dependency_only || is_dependency_edge(rel.rel_type) {
                let from = find_index(&self.propositions, &rel.from_id);
                let to = find_index(&self.propositions, &rel.to_id);
                match (from, to) {
                    (Some(f), Some(t)) => {
                        let mut row = adj[f].clone();
                        row.push(t);
                        adj.set(f, row);
                    },
                    _ => {},
                }
            }
            k = k + 1;
        }
        adj
    }

    /// Dependency adjacency: the targets of each proposition's `supports`, `depends_on` and
    /// `assumes` edges, by position, in relationship order.
    pub fn get_dependency_adjacency(&self) -> (adj: Vec<Vec<usize>>)
        ensures
            is_adjacency(*self, adj@, true),
    {
        self.adjacency(true)
    }

    /// Full adjacency: the targets of each proposition's edges of every kind, by position,
    /// in relationship order.
    pub fn get_adjacency_list(&self) -> (adj: Vec<Vec<usize>>)
        ensures
            is_adjacency(*self, adj@, false),
    {
        self.adjacency(false)
    }

    /// All relationships that end at the given identifier, in input order.
    pub fn get_relationships_to(&self, id: &String) -> (r: Vec<&Relationship>)
        ensures
            r@ == self.relationships@.filter(|x: Relationship| x.to_id@ == id@).map_values(
                |x: Relationship| &x,
            ),
    {
        let mut r: Vec<&Relationship> = Vec::new();
        let mut i: usize = 0;
        while i < self.relationships.len()
            invariant
                i <= self.relationships@.len(),
                r@ == self.relationships@.take(i as int).filter(
                    |x: Relationship| x.to_id@ == id@,
                ).map_values(|x: Relationship| &x),
            decreases self.relationships.len() - i,
        {
            let rel = &self.relationships[i];
            proof {
                lemma_take_filter_step(
                    self.relationships@,
                    i as int,
                    |x: Relationship| x.to_id@ == id@,
                );
            }
            if rel.to_id == *id {
                proof {
                    let f = self.relationships@.take(i as int).filter(
                        |x: Relationship| x.to_id@ == id@,
                    );
                    assert(f.push(*rel).map_values(|x: Relationship| &x) =~= f.map_values(
                        |x: Relationship| &x,
                    ).push(rel));
                }
                r.push(rel);
            }
            i = i + 1;
        }
        proof {
            assert(self.relationships@.take(i as int) == self.relationships@);
        }
        r
    }

    /// All propositions of the given kind, in input order.
    pub fn get_propositions_by_type(&self, prop_type: PropositionKind) -> (r: Vec<&Proposition>)
        ensures
            r@ == self.propositions@.filter(|p: Proposition| p.prop_type == prop_type).map_values(
                |p: Proposition| &p,
            ),
    {
        let mut r: Vec<&Proposition> = Vec::new();
        let mut i: usize = 0;
        while i < self.propositions.len()
            invariant
                i <= self.propositions@.len(),
                r@ == self.propositions@.take(i as int).filter(
                    |p: Proposition| p.prop_type == prop_type,
                ).map_values(|p: Proposition| &p),
            decreases self.propositions.len() - i,
        {
            let p = &self.propositions[i];
            proof {
                lemma_take_filter_step(
                    self.propositions@,
                    i as int,
                    |p: Proposition| p.prop_type == prop_type,
                );
            }
            if p.prop_type == prop_type {
                proof {
                    let f = self.propositions@.take(i as int).filter(
                        |p: Proposition| p.prop_type == prop_type,
                    );
                    assert(f.push(*p).map_values(|p: Proposition| &p) =~= f.map_values(
                        |p: Proposition| &p,
                    ).push(p));
                }
                r.push(p);
            }
            i = i + 1;
        }
        proof {
            assert(self.propositions@.take(i as int) == self.propositions@);
        }
        r
    }

    /// All relationships that start at the given identifier, in input order.
    pub fn get_relationships_from(&self, id: &String) -> (r: Vec<&Relationship>)
        ensures
            r@ == self.relationships@.filter(|x: Relationship| x.from_id@ == id@).map_values(
                |x: Relationship| &x,
            ),
    {
        let mut r: Vec<&Relationship> = Vec::new();
        let mut i: usize = 0;
        while i < self.relationships.len()
            invariant
                i <= self.relationships@.len(),
                r@ == self.relationships@.take(i as int).filter(
                    |x: Relationship| x.from_id@ == id@,
                ).map_values(|x: Relationship| &x),
            decreases self.relationships.len() - i,
        {
            let rel = &self.relationships[i];
            proof {
                lemma_take_filter_step(
                    self.relationships@,
                    i as int,
                    |x: Relationship| x.from_id@ == id@,
                );
            }
            if rel.from_id == *id {
                proof {
                    let f = self.relationships@.take(i as int).filter(
                        |x: Relationship| x.from_id@ == id@,
                    );
                    assert(f.push(*rel).map_values(|x: Relationship| &x) =~= f.map_values(
                        |x: Relationship| &x,
                    ).push(rel));
                }
                r.push(rel);
            }
            i = i + 1;
        }
        proof {
            assert(self.relationships@.take(i as int) == self.relationships@);
        }
        r
    }
}

} // verus!
