use vstd::prelude::*;

use crate::cycle_detection::{clone_ids, id_seq};
use crate::text::{nat_text, numbered_text, contains_chars, contains_seq, fold_all, folds, lower_of, FoldedText};
use crate::types::{
    Confidence,
    Fallacy,
    FallacyPattern,
    LogicalGraph,
    Proposition,
    PropositionKind,
    RelationshipKind,
    find_index,
    incoming_edges,
    incoming_positions,
    lookup,
    support_count,
    supporter_ids,
    supporters_of,
};

verus! {

/// What a fallacy record states: the propositions it affects and its pattern.
pub type FallacyCore = (Seq<Seq<char>>, FallacyPattern);

pub open spec fn fallacy_core_of(f: Fallacy) -> FallacyCore {
    (id_seq(f.affected_node_ids@), f.pattern_type)
}

pub open spec fn fallacy_cores_of(fs: Seq<Fallacy>) -> Seq<FallacyCore> {
    fs.map_values(|f: Fallacy| fallacy_core_of(f))
}

/// Records found by `f` for the first `k` propositions, in input order.
pub open spec fn per_proposition(
    s: Seq<Proposition>,
    k: int,
    f: spec_fn(Proposition) -> Seq<FallacyCore>,
) -> Seq<FallacyCore>
    decreases k,
{
    if k <= 0 || k > s.len() {
        Seq::empty()
    } else {
        per_proposition(s, k - 1, f) + f(s[k - 1])
    }
}

/// One circular-reasoning record per cycle.
pub open spec fn circular_cores(cycles: Seq<Vec<String>>) -> Seq<FallacyCore> {
    cycles.map_values(|c: Vec<String>| (id_seq(c@), FallacyPattern::Cycle))
}

/// A high-confidence claim backed by exactly one `supports` edge.
pub open spec fn hasty_core(g: LogicalGraph, p: Proposition) -> Seq<FallacyCore> {
    if p.prop_type == PropositionKind::Claim && p.confidence == Confidence::High && support_count(
        g.relationships@,
        p.id@,
    ) == 1 {
        seq![(seq![p.id@] + supporter_ids(g.relationships@, p.id@), FallacyPattern::HastyGeneralization)]
    } else {
        Seq::empty()
    }
}

/// `s` frames a choice between two options.
pub open spec fn has_binary_word(s: Seq<char>) -> bool {
    contains_seq(s, "or"@) || contains_seq(s, "either"@) || contains_seq(s, "only"@) || contains_seq(
        s,
        "∨"@,
    )
}

/// A proposition whose lower-case expression or statement frames a binary choice.
pub open spec fn is_binary(q: Proposition) -> bool {
    has_binary_word(lower_of(q.formal_expression@)) || has_binary_word(lower_of(q.statement@))
}

/// Sources of the `supports` edges into `id` that name propositions.
pub open spec fn resolved_supporters(g: LogicalGraph, id: Seq<char>) -> Seq<Seq<char>> {
    supporter_ids(g.relationships@, id).filter(|x: Seq<char>| lookup(g.propositions@, x) is Some)
}

/// A claim resting on exactly two `supports` edges, never challenged, with a supporter that
/// frames a binary choice.
pub open spec fn dilemma_core(g: LogicalGraph, p: Proposition) -> Seq<FallacyCore> {
    let rs = resolved_supporters(g, p.id@);
    if p.prop_type == PropositionKind::Claim && support_count(g.relationships@, p.id@) == 2
        && incoming_edges(
        g.relationships@,
        p.id@,
        RelationshipKind::Contradicts,
        RelationshipKind::Attacks,
    ).len() == 0 && exists|k: int|
        0 <= k < rs.len() && is_binary(g.propositions@[lookup(g.propositions@, rs[k]).unwrap()]) {
        seq![(seq![p.id@] + rs, FallacyPattern::FalseDilemma)]
    } else {
        Seq::empty()
    }
}

/// `s` appeals to a source.
pub open spec fn has_authority_word(s: Seq<char>) -> bool {
    contains_seq(s, "says"@) || contains_seq(s, "according"@) || contains_seq(s, "expert"@)
        || contains_seq(s, "authority"@) || contains_seq(s, "believes"@) || contains_seq(
        s,
        "argues"@,
    ) || contains_seq(s, "claims"@) || contains_seq(s, "stated"@)
}

/// Evidence that appeals to a source and has no `supports` edge of its own.
pub open spec fn authority_core(g: LogicalGraph, p: Proposition) -> Seq<FallacyCore> {
    if p.prop_type == PropositionKind::Evidence && (has_authority_word(
        lower_of(p.formal_expression@),
    ) || has_authority_word(lower_of(p.statement@))) && support_count(g.relationships@, p.id@)
        == 0 {
        seq![(seq![p.id@], FallacyPattern::AppealToAuthority)]
    } else {
        Seq::empty()
    }
}

/// All fallacy records: circular reasoning per cycle, then hasty generalisations, false
/// dilemmas and appeals to authority, proposition by proposition.
pub open spec fn fallacy_cores(g: LogicalGraph, cycles: Seq<Vec<String>>) -> Seq<FallacyCore> {
    let n = g.propositions@.len() as int;
    circular_cores(cycles) + per_proposition(
        g.propositions@,
        n,
        |p: Proposition| hasty_core(g, p),
    ) + per_proposition(g.propositions@, n, |p: Proposition| dilemma_core(g, p)) + per_proposition(
        g.propositions@,
        n,
        |p: Proposition| authority_core(g, p),
    )
}

/// The identifier prefix of records of each pattern.
pub open spec fn fallacy_prefix(p: FallacyPattern) -> Seq<char> {
    match p {
        FallacyPattern::Cycle => "fallacy-circular-"@,
        FallacyPattern::HastyGeneralization => "fallacy-hasty-"@,
        FallacyPattern::FalseDilemma => "fallacy-dilemma-"@,
        FallacyPattern::AppealToAuthority => "fallacy-authority-"@,
    }
}

/// The name of each pattern.
pub open spec fn fallacy_name(p: FallacyPattern) -> Seq<char> {
    match p {
        FallacyPattern::Cycle => "Circular Reasoning (Petitio Principii)"@,
        FallacyPattern::HastyGeneralization => "Hasty Generalization"@,
        FallacyPattern::FalseDilemma => "False Dilemma"@,
        FallacyPattern::AppealToAuthority => "Appeal to Authority"@,
    }
}

/// Every record is named after its pattern and numbered by its position, counting from one
/// across all patterns: `fallacy-<pattern>-<n>`.
pub open spec fn fallacies_labelled(fs: Seq<Fallacy>) -> bool {
    forall|k: int|
        0 <= k < fs.len() ==> (#[trigger] fs[k]).id@ == fallacy_prefix(fs[k].pattern_type) + nat_text(
            (k + 1) as nat,
        ) && fs[k].name@ == fallacy_name(fs[k].pattern_type)
}

fn quoted(s: &String) -> String {
    String::from_str("\"").concat(s.as_str()).concat("\"")
}

fn join_statements(graph: &LogicalGraph, ids: &Vec<String>, sep: &str) -> String {
    let mut out = String::new();
    let mut first = true;
    let mut k: usize = 0;
    while k < ids.len()
        decreases ids.len() - k,
    {
        match graph.get_proposition(&ids[k]) {
            Some(p) => {
                if !first {
                    out = out.concat(sep);
                }
                out = out.concat(quoted(&p.statement).as_str());
                first = false;
            },
            None => {},
        }
        k = k + 1;
    }
    out
}

fn push_fallacy(out: &mut Vec<Fallacy>, f: Fallacy)
    requires
        fallacies_labelled(old(out)@),
        f.id@ == fallacy_prefix(f.pattern_type) + nat_text((old(out)@.len() + 1) as nat),
        f.name@ == fallacy_name(f.pattern_type),
    ensures
        fallacy_cores_of(final(out)@) == fallacy_cores_of(old(out)@).push(fallacy_core_of(f)),
        fallacies_labelled(final(out)@),
{
    let ghost before = out@;
    out.push(f);
    proof {
        assert(fallacy_cores_of(out@) =~= fallacy_cores_of(before).push(fallacy_core_of(f)));
    }
}

fn detect_circular(graph: &LogicalGraph, cycles: &Vec<Vec<String>>, out: &mut Vec<Fallacy>)
    requires
        fallacies_labelled(old(out)@),
    ensures
        fallacies_labelled(final(out)@),
        fallacy_cores_of(final(out)@) == fallacy_cores_of(old(out)@) + circular_cores(cycles@),
{
    let mut k: usize = 0;
    while k < cycles.len()
        invariant
            fallacies_labelled(out@),
            k <= cycles@.len(),
            fallacy_cores_of(out@) == fallacy_cores_of(old(out)@) + circular_cores(cycles@.take(k as int)),
        decreases cycles.len() - k,
    {
        let cycle = &cycles[k];
        let description = String::from_str("A circular dependency was detected: ").concat(
            join_statements(graph, cycle, " → ").as_str(),
        ).concat(
            " form a logical loop where each proposition ultimately depends on itself. This means the argument is self-supporting with no independent foundation.",
        );
        let f = Fallacy {
            id: numbered_text("fallacy-circular-", out.len() as u128 + 1),
            name: String::from_str("Circular Reasoning (Petitio Principii)"),
            description,
            affected_node_ids: clone_ids(cycle),
            pattern_type: FallacyPattern::Cycle,
        };
        push_fallacy(out, f);
        proof {
            assert(circular_cores(cycles@.take(k + 1)) =~= circular_cores(cycles@.take(k as int)).push(
                (id_seq(cycle@), FallacyPattern::Cycle),
            ));
        }
        k = k + 1;
    }
    proof {
        assert(cycles@.take(k as int) =~= cycles@);
    }
}

} // verus!

verus! {

fn has_binary_word_exec(s: &Vec<char>) -> (r: bool)
    ensures
        r == has_binary_word(s@),
{
    contains_chars(s, "or") || contains_chars(s, "either") || contains_chars(s, "only")
        || contains_chars(s, "∨")
}

fn has_authority_word_exec(s: &Vec<char>) -> (r: bool)
    ensures
        r == has_authority_word(s@),
{
    contains_chars(s, "says") || contains_chars(s, "according") || contains_chars(s, "expert")
        || contains_chars(s, "authority") || contains_chars(s, "believes") || contains_chars(
        s,
        "argues",
    ) || contains_chars(s, "claims") || contains_chars(s, "stated")
}

fn count_text(n: usize) -> String {
    (n as u128).to_string()
}

fn detect_hasty(graph: &LogicalGraph, out: &mut Vec<Fallacy>)
    requires
        fallacies_labelled(old(out)@),
    ensures
        fallacies_labelled(final(out)@),
        fallacy_cores_of(final(out)@) == fallacy_cores_of(old(out)@) + per_proposition(
            graph.propositions@,
            graph.propositions@.len() as int,
            |p: Proposition| hasty_core(*graph, p),
        ),
{
    let ghost f = |p: Proposition| hasty_core(*graph, p);
    let mut i: usize = 0;
    while i < graph.propositions.len()
        invariant
            fallacies_labelled(out@),
            f == (|p: Proposition| hasty_core(*graph, p)),
            i <= graph.propositions@.len(),
            fallacy_cores_of(out@) == fallacy_cores_of(old(out)@) + per_proposition(
                graph.propositions@,
                i as int,
                f,
            ),
        decreases graph.propositions.len() - i,
    {
        let p = &graph.propositions[i];
        let ghost before = fallacy_cores_of(out@);
        if p.prop_type == PropositionKind::Claim && p.confidence == Confidence::High {
            let sup = supporters_of(graph, &p.id);
            if sup.len() == 1 {
                let mut ids: Vec<String> = Vec::new();
                ids.push(p.id.clone());
                ids.push(sup[0].clone());
                let description = String::from_str("The claim ").concat(quoted(&p.statement).as_str()).concat(
                    " is stated with high confidence but is supported by only ",
                ).concat(count_text(sup.len()).as_str()).concat(" piece(s) of evidence: ").concat(
                    join_statements(graph, &sup, ", ").as_str(),
                ).concat(
                    ". High-confidence conclusions typically require multiple independent lines of evidence. No counter-evidence has been considered.",
                );
                let fl = Fallacy {
                    id: numbered_text("fallacy-hasty-", out.len() as u128 + 1),
                    name: String::from_str("Hasty Generalization"),
                    description,
                    affected_node_ids: ids,
                    pattern_type: FallacyPattern::HastyGeneralization,
                };
                proof {
                    assert(sup@.map_values(|s: String| s@).len() == 1);
                    assert(id_seq(ids@) =~= seq![p.id@] + supporter_ids(graph.relationships@, p.id@));
                }
                push_fallacy(out, fl);
            } else {
                proof {
                    assert(sup@.map_values(|s: String| s@).len() == sup@.len());
                }
            }
        }
        proof {
            assert(graph.propositions@[i as int] == *p);
            assert(fallacy_cores_of(out@) =~= fallacy_cores_of(old(out)@) + per_proposition(
                graph.propositions@,
                i + 1,
                f,
            ));
        }
        i = i + 1;
    }
}

fn detect_authority(graph: &LogicalGraph, folded: &Vec<FoldedText>, out: &mut Vec<Fallacy>)
    requires
        fallacies_labelled(old(out)@),
        folds(graph.propositions@, folded@),
    ensures
        fallacies_labelled(final(out)@),
        fallacy_cores_of(final(out)@) == fallacy_cores_of(old(out)@) + per_proposition(
            graph.propositions@,
            graph.propositions@.len() as int,
            |p: Proposition| authority_core(*graph, p),
        ),
{
    let ghost f = |p: Proposition| authority_core(*graph, p);
    let mut i: usize = 0;
    while i < graph.propositions.len()
        invariant
            fallacies_labelled(out@),
            f == (|p: Proposition| authority_core(*graph, p)),
            folds(graph.propositions@, folded@),
            i <= graph.propositions@.len(),
            fallacy_cores_of(out@) == fallacy_cores_of(old(out)@) + per_proposition(
                graph.propositions@,
                i as int,
                f,
            ),
        decreases graph.propositions.len() - i,
    {
        let p = &graph.propositions[i];
        let t = &folded[i];
        if p.prop_type == PropositionKind::Evidence && (has_authority_word_exec(&t.expression)
            || has_authority_word_exec(&t.statement)) {
            let backing = incoming_positions(
                graph,
                &p.id,
                RelationshipKind::Supports,
                RelationshipKind::Supports,
            );
            proof {
                assert(backing@.map_values(|w: usize| graph.relationships@[w as int]).len()
                    == backing@.len());
            }
            if backing.len() == 0 {
                let mut ids: Vec<String> = Vec::new();
                ids.push(p.id.clone());
                let description = String::from_str("The evidence ").concat(
                    quoted(&p.statement).as_str(),
                ).concat(
                    " references an authority or source rather than providing independent logical justification. Authority-based evidence should be supplemented with verifiable data.",
                );
                let fl = Fallacy {
                    id: numbered_text("fallacy-authority-", out.len() as u128 + 1),
                    name: String::from_str("Appeal to Authority"),
                    description,
                    affected_node_ids: ids,
                    pattern_type: FallacyPattern::AppealToAuthority,
                };
                proof {
                    assert(id_seq(ids@) =~= seq![p.id@]);
                }
                push_fallacy(out, fl);
            }
        }
        proof {
            assert(graph.propositions@[i as int] == *p);
            assert(fallacy_cores_of(out@) =~= fallacy_cores_of(old(out)@) + per_proposition(
                graph.propositions@,
                i + 1,
                f,
            ));
        }
        i = i + 1;
    }
}

/// Supporters of `id` that name propositions, and whether one of them frames a binary choice.
fn binary_supporters(graph: &LogicalGraph, folded: &Vec<FoldedText>, sup: &Vec<String>, id: Ghost<Seq<char>>) -> (r: (
    Vec<String>,
    bool,
))
    requires
        folds(graph.propositions@, folded@),
        sup@.map_values(|s: String| s@) == supporter_ids(graph.relationships@, id@),
    ensures
        id_seq(r.0@) == resolved_supporters(*graph, id@),
        r.1 == exists|k: int|
            0 <= k < resolved_supporters(*graph, id@).len() && is_binary(
                graph.propositions@[lookup(graph.propositions@, resolved_supporters(*graph, id@)[k]).unwrap()],
            ),
{
    let ghost ss = supporter_ids(graph.relationships@, id@);
    let ghost pred = |x: Seq<char>| lookup(graph.propositions@, x) is Some;
    let ghost props = graph.propositions@;
    let mut ids: Vec<String> = Vec::new();
    let mut any = false;
    let mut k: usize = 0;
    while k < sup.len()
        invariant
            ss == supporter_ids(graph.relationships@, id@),
            pred == (|x: Seq<char>| lookup(graph.propositions@, x) is Some),
            props == graph.propositions@,
            folds(props, folded@),
            sup@.map_values(|s: String| s@) == ss,
            k <= sup@.len(),
            id_seq(ids@) == ss.take(k as int).filter(pred),
            any == exists|t: int|
                0 <= t < ss.take(k as int).filter(pred).len() && is_binary(
                    props[lookup(props, ss.take(k as int).filter(pred)[t]).unwrap()],
                ),
        decreases sup.len() - k,
    {
        proof {
            crate::types::lemma_take_filter_step(ss, k as int, pred);
            assert(ss[k as int] == sup@[k as int]@);
        }
        let ghost prev = ss.take(k as int).filter(pred);
        match find_index(&graph.propositions, &sup[k]) {
            Some(q) => {
                let t = &folded[q];
                let b = has_binary_word_exec(&t.expression) || has_binary_word_exec(&t.statement);
                let ghost before = ids@;
                ids.push(sup[k].clone());
                proof {
                    let next = ss.take(k + 1).filter(pred);
                    assert(next == prev.push(ss[k as int]));
                    assert(id_seq(ids@) =~= id_seq(before).push(sup@[k as int]@));
                    assert(b == is_binary(props[q as int]));
                    if any {
                        let t0 = choose|t0: int|
                            0 <= t0 < prev.len() && is_binary(props[lookup(props, prev[t0]).unwrap()]);
                        assert(next[t0] == prev[t0]);
                    }
                    if b {
                        assert(next[prev.len() as int] == ss[k as int]);
                    }
                    if exists|t1: int| 0 <= t1 < next.len() && is_binary(props[lookup(props, next[t1]).unwrap()]) {
                        let t1 = choose|t1: int| 0 <= t1 < next.len() && is_binary(props[lookup(props, next[t1]).unwrap()]);
                        if t1 < prev.len() {
                            assert(prev[t1] == next[t1]);
                        }
                    }
                }
                any = any || b;
            },
            None => {},
        }
        k = k + 1;
    }
    proof {
        assert(ss.take(k as int) =~= ss);
    }
    (ids, any)
}

fn detect_dilemma(graph: &LogicalGraph, folded: &Vec<FoldedText>, out: &mut Vec<Fallacy>)
    requires
        fallacies_labelled(old(out)@),
        folds(graph.propositions@, folded@),
    ensures
        fallacies_labelled(final(out)@),
        fallacy_cores_of(final(out)@) == fallacy_cores_of(old(out)@) + per_proposition(
            graph.propositions@,
            graph.propositions@.len() as int,
            |p: Proposition| dilemma_core(*graph, p),
        ),
{
    let ghost f = |p: Proposition| dilemma_core(*graph, p);
    let mut i: usize = 0;
    while i < graph.propositions.len()
        invariant
            fallacies_labelled(out@),
            f == (|p: Proposition| dilemma_core(*graph, p)),
            folds(graph.propositions@, folded@),
            i <= graph.propositions@.len(),
            fallacy_cores_of(out@) == fallacy_cores_of(old(out)@) + per_proposition(
                graph.propositions@,
                i as int,
                f,
            ),
        decreases graph.propositions.len() - i,
    {
        let p = &graph.propositions[i];
        if p.prop_type == PropositionKind::Claim {
            let sup = supporters_of(graph, &p.id);
            let challenges = incoming_positions(
                graph,
                &p.id,
                RelationshipKind::Contradicts,
                RelationshipKind::Attacks,
            );
            proof {
                assert(sup@.map_values(|s: String| s@).len() == sup@.len());
                assert(challenges@.map_values(|w: usize| graph.relationships@[w as int]).len()
                    == challenges@.len());
            }
            if sup.len() == 2 && challenges.len() == 0 {
                let (named, binary) = binary_supporters(graph, folded, &sup, Ghost(p.id@));
                if binary {
                    let mut ids: Vec<String> = Vec::new();
                    ids.push(p.id.clone());
                    let mut k: usize = 0;
                    while k < named.len()
                        invariant
                            k <= named@.len(),
                            ids@.len() == k + 1,
                            ids@[0]@ == p.id@,
                            forall|t: int| 0 <= t < k ==> ids@[t + 1]@ == named@[t]@,
                        decreases named.len() - k,
                    {
                        ids.push(named[k].clone());
                        k = k + 1;
                    }
                    let description = String::from_str("The claim ").concat(
                        quoted(&p.statement).as_str(),
                    ).concat(
                        " is presented as depending on exactly two options, with no alternatives considered. This binary framing may exclude viable middle-ground positions or alternative approaches.",
                    );
                    let fl = Fallacy {
                        id: numbered_text("fallacy-dilemma-", out.len() as u128 + 1),
                        name: String::from_str("False Dilemma"),
                        description,
                        affected_node_ids: ids,
                        pattern_type: FallacyPattern::FalseDilemma,
                    };
                    proof {
                        assert(id_seq(ids@) =~= seq![p.id@] + id_seq(named@));
                    }
                    push_fallacy(out, fl);
                }
            }
        }
        proof {
            assert(graph.propositions@[i as int] == *p);
            assert(fallacy_cores_of(out@) =~= fallacy_cores_of(old(out)@) + per_proposition(
                graph.propositions@,
                i + 1,
                f,
            ));
        }
        i = i + 1;
    }
}

/// Fallacies recognised by the structure of the argument: circular reasoning for each cycle,
/// then hasty generalisations, false dilemmas and appeals to authority. Record identifiers
/// count from one across all four detectors.
pub fn detect_fallacies(graph: &LogicalGraph, cycles: &Vec<Vec<String>>) -> (r: Vec<Fallacy>)
    ensures
        fallacy_cores_of(r@) == fallacy_cores(*graph, cycles@),
        fallacies_labelled(r@),
{
    let folded = fold_all(&graph.propositions);
    let mut out: Vec<Fallacy> = Vec::new();
    proof {
        assert(fallacy_cores_of(out@) =~= Seq::<FallacyCore>::empty());
    }
    detect_circular(graph, cycles, &mut out);
    detect_hasty(graph, &mut out);
    detect_dilemma(graph, &folded, &mut out);
    detect_authority(graph, &folded, &mut out);
    proof {
        assert(fallacy_cores_of(out@) =~= fallacy_cores(*graph, cycles@));
    }
    out
}

} // verus!
