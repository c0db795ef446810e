use vstd::prelude::*;

use crate::cycle_detection::id_seq;
use crate::text::{nat_text, numbered_text, contains_chars, contains_seq, fold_all, folds, lower_of, FoldedText};
use crate::types::{
    BiasSeverity,
    CognitiveBias,
    Confidence,
    LogicalGraph,
    PropositionKind,
    Relationship,
    RelationshipKind,
    incoming_edges,
    incoming_positions,
    lookup,
    support_count,
    supporter_ids,
    supporters_of,
};
use crate::variables::{extract_variables, kept_variable, raw_variables};

verus! {

/// What a bias record states: the propositions it affects, its name, its severity and the
/// system of thought it belongs to.
pub type BiasCore = (Seq<Seq<char>>, Seq<char>, BiasSeverity, u8);

pub open spec fn bias_core_of(b: CognitiveBias) -> BiasCore {
    (id_seq(b.affected_node_ids@), b.name@, b.severity, b.system)
}

pub open spec fn bias_cores_of(bs: Seq<CognitiveBias>) -> Seq<BiasCore> {
    bs.map_values(|b: CognitiveBias| bias_core_of(b))
}

/// The severity band of the proposition at `i`: `Low` where none is given.
pub open spec fn band_at(bands: Seq<BiasSeverity>, i: int) -> BiasSeverity {
    if 0 <= i < bands.len() {
        bands[i]
    } else {
        BiasSeverity::Low
    }
}

/// Records found by `f` for the propositions at positions below `k`, in input order.
pub open spec fn per_position(k: int, f: spec_fn(int) -> Seq<BiasCore>) -> Seq<BiasCore>
    decreases k,
{
    if k <= 0 {
        Seq::empty()
    } else {
        per_position(k - 1, f) + f(k - 1)
    }
}

/// An assumption stated as an absolute with no `supports` edge.
pub open spec fn anchoring_core(g: LogicalGraph, bands: Seq<BiasSeverity>, i: int) -> Seq<BiasCore> {
    let p = g.propositions@[i];
    if p.prop_type == PropositionKind::Assumption && p.confidence == Confidence::UnstatedAsAbsolute
        && support_count(g.relationships@, p.id@) == 0 {
        seq![(seq![p.id@], "Anchoring Effect"@, band_at(bands, i), 1u8)]
    } else {
        Seq::empty()
    }
}

/// A claim with at least two `supports` edges and no `contradicts` or `attacks` edge into it.
pub open spec fn confirmation_core(g: LogicalGraph, bands: Seq<BiasSeverity>, i: int) -> Seq<
    BiasCore,
> {
    let p = g.propositions@[i];
    if p.prop_type == PropositionKind::Claim && support_count(g.relationships@, p.id@) >= 2
        && incoming_edges(
        g.relationships@,
        p.id@,
        RelationshipKind::Contradicts,
        RelationshipKind::Attacks,
    ).len() == 0 {
        seq![
            (
                seq![p.id@] + supporter_ids(g.relationships@, p.id@),
                "Confirmation Bias"@,
                band_at(bands, i),
                1u8,
            ),
        ]
    } else {
        Seq::empty()
    }
}

/// `s` uses subjective language.
pub open spec fn has_subjective_word(s: Seq<char>) -> bool {
    contains_seq(s, "feels"@) || contains_seq(s, "seems"@) || contains_seq(s, "looks like"@)
        || contains_seq(s, "appears"@) || contains_seq(s, "intuition"@) || contains_seq(s, "gut"@)
        || contains_seq(s, "sense"@) || contains_seq(s, "impression"@) || contains_seq(s, "vibe"@)
}

/// Evidence held with high or medium confidence that uses subjective language.
pub open spec fn availability_core(g: LogicalGraph, bands: Seq<BiasSeverity>, i: int) -> Seq<
    BiasCore,
> {
    let p = g.propositions@[i];
    if p.prop_type == PropositionKind::Evidence && (has_subjective_word(lower_of(p.statement@))
        || has_subjective_word(lower_of(p.formal_expression@))) && (p.confidence == Confidence::High
        || p.confidence == Confidence::Medium) {
        seq![(seq![p.id@], "Availability Heuristic"@, band_at(bands, i), 1u8)]
    } else {
        Seq::empty()
    }
}

/// Number of `depends_on` and `assumes` edges that start at `id`.
pub open spec fn outgoing_dependencies(rels: Seq<Relationship>, id: Seq<char>) -> nat {
    rels.filter(
        |r: Relationship| r.from_id@ == id && (r.rel_type == RelationshipKind::DependsOn || r.rel_type
            == RelationshipKind::Assumes),
    ).len()
}

/// Some edge into `id` starts at a constraint or a risk.
pub open spec fn is_constrained(g: LogicalGraph, id: Seq<char>) -> bool {
    exists|w: int|
        0 <= w < g.relationships@.len() && (#[trigger] g.relationships@[w]).to_id@ == id && lookup(
            g.propositions@,
            g.relationships@[w].from_id@,
        ) is Some && ({
            let k = g.propositions@[lookup(g.propositions@, g.relationships@[w].from_id@).unwrap()].prop_type;
            k == PropositionKind::Constraint || k == PropositionKind::Risk
        })
}

/// A load-bearing, high-confidence claim with no dependencies of its own and no constraint or
/// risk bearing on it.
pub open spec fn planning_core(g: LogicalGraph, bands: Seq<BiasSeverity>, i: int) -> Seq<BiasCore> {
    let p = g.propositions@[i];
    if p.prop_type == PropositionKind::Claim && p.is_load_bearing && p.confidence == Confidence::High
        && outgoing_dependencies(g.relationships@, p.id@) == 0 && !is_constrained(g, p.id@) {
        seq![(seq![p.id@], "Planning Fallacy"@, band_at(bands, i), 1u8)]
    } else {
        Seq::empty()
    }
}

/// `x` is a variable of the formal expression `e`.
pub open spec fn is_variable_of(e: Seq<char>, x: Seq<char>) -> bool {
    raw_variables(e).contains(x) && kept_variable(x)
}

/// Records of attribute substitution for the claim at `i` and its first `k` supporters: one
/// per supporter that names a proposition whose expression has variables, none of them shared
/// with the claim.
pub open spec fn substitution_row(g: LogicalGraph, bands: Seq<BiasSeverity>, i: int, k: int) -> Seq<
    BiasCore,
>
    decreases k,
{
    let p = g.propositions@[i];
    let ss = supporter_ids(g.relationships@, p.id@);
    if k <= 0 || k > ss.len() {
        Seq::empty()
    } else {
        let prev = substitution_row(g, bands, i, k - 1);
        match lookup(g.propositions@, ss[k - 1]) {
            Some(qi) => {
                let q = g.propositions@[qi];
                let pe = p.formal_expression@;
                let qe = q.formal_expression@;
                if (exists|x: Seq<char>| is_variable_of(qe, x)) && !(exists|x: Seq<char>|
                    is_variable_of(pe, x) && is_variable_of(qe, x)) {
                    prev.push((seq![p.id@, q.id@], "Attribute Substitution"@, band_at(bands, i), 1u8))
                } else {
                    prev
                }
            },
            None => prev,
        }
    }
}

/// Attribute substitution for the claim at `i`, when its expression has variables.
pub open spec fn substitution_core(g: LogicalGraph, bands: Seq<BiasSeverity>, i: int) -> Seq<
    BiasCore,
> {
    let p = g.propositions@[i];
    if p.prop_type == PropositionKind::Claim && exists|x: Seq<char>|
        is_variable_of(p.formal_expression@, x) {
        substitution_row(g, bands, i, supporter_ids(g.relationships@, p.id@).len() as int)
    } else {
        Seq::empty()
    }
}

/// All bias records: anchoring, confirmation, availability, planning and attribute
/// substitution, each detector proposition by proposition.
pub open spec fn bias_cores(g: LogicalGraph, bands: Seq<BiasSeverity>) -> Seq<BiasCore> {
    let n = g.propositions@.len() as int;
    per_position(n, |i: int| anchoring_core(g, bands, i)) + per_position(
        n,
        |i: int| confirmation_core(g, bands, i),
    ) + per_position(n, |i: int| availability_core(g, bands, i)) + per_position(
        n,
        |i: int| planning_core(g, bands, i),
    ) + per_position(n, |i: int| substitution_core(g, bands, i))
}

} // verus!

verus! {

fn quoted(s: &String) -> String {
    String::from_str("\"").concat(s.as_str()).concat("\"")
}

fn band_of(bands: &Vec<BiasSeverity>, i: usize) -> (r: BiasSeverity)
    ensures
        r == band_at(bands@, i as int),
{
    if i < bands.len() {
        bands[i]
    } else {
        BiasSeverity::Low
    }
}

/// A detector's name, identifier prefix and reference.
pub open spec fn is_detector(name: Seq<char>, prefix: Seq<char>, reference: Seq<char>) -> bool {
    ||| (name == "Anchoring Effect"@ && prefix == "bias-anchoring-"@ && reference
        == "Thinking, Fast and Slow, Chapter 11: Anchors"@)
    ||| (name == "Confirmation Bias"@ && prefix == "bias-confirmation-"@ && reference
        == "Thinking, Fast and Slow, Chapter 7: A Machine for Jumping to Conclusions"@)
    ||| (name == "Availability Heuristic"@ && prefix == "bias-availability-"@ && reference
        == "Thinking, Fast and Slow, Chapter 12: The Science of Availability"@)
    ||| (name == "Planning Fallacy"@ && prefix == "bias-planning-"@ && reference
        == "Thinking, Fast and Slow, Chapter 23: The Outside View"@)
    ||| (name == "Attribute Substitution"@ && prefix == "bias-substitution-"@ && reference
        == "Thinking, Fast and Slow, Chapter 9: Answering an Easier Question"@)
}

/// Every record carries its detector's reference and is numbered by its position, counting
/// from one across all detectors: `bias-<detector>-<n>`.
pub open spec fn biases_labelled(bs: Seq<CognitiveBias>) -> bool {
    forall|k: int|
        0 <= k < bs.len() ==> exists|prefix: Seq<char>|
            is_detector((#[trigger] bs[k]).name@, prefix, bs[k].kahneman_reference@) && bs[k].id@ == prefix
                + nat_text((k + 1) as nat)
}

fn push_bias(
    out: &mut Vec<CognitiveBias>,
    prefix: &str,
    name: &str,
    reference: &str,
    description: String,
    ids: Vec<String>,
    severity: BiasSeverity,
)
    requires
        biases_labelled(old(out)@),
        is_detector(name@, prefix@, reference@),
    ensures
        bias_cores_of(final(out)@) == bias_cores_of(old(out)@).push(
            (id_seq(ids@), name@, severity, 1u8),
        ),
        biases_labelled(final(out)@),
{
    let b = CognitiveBias {
        id: numbered_text(prefix, out.len() as u128 + 1),
        name: String::from_str(name),
        kahneman_reference: String::from_str(reference),
        description,
        affected_node_ids: ids,
        severity,
        system: 1,
    };
    let ghost before = out@;
    let ghost core = bias_core_of(b);
    out.push(b);
    proof {
        assert(bias_cores_of(out@) =~= bias_cores_of(before).push(core));
        assert forall|k: int| 0 <= k < out@.len() implies exists|pf: Seq<char>|
            is_detector((#[trigger] out@[k]).name@, pf, out@[k].kahneman_reference@) && out@[k].id@ == pf
                + nat_text((k + 1) as nat) by {
            if k < before.len() {
                assert(out@[k] == before[k]);
            } else {
                assert(is_detector(out@[k].name@, prefix@, out@[k].kahneman_reference@));
            }
        }
    }
}

} // verus!

verus! {

fn single(id: &String) -> (r: Vec<String>)
    ensures
        id_seq(r@) == seq![id@],
{
    let mut r: Vec<String> = Vec::new();
    r.push(id.clone());
    proof {
        assert(id_seq(r@) =~= seq![id@]);
    }
    r
}

fn detect_anchoring(graph: &LogicalGraph, bands: &Vec<BiasSeverity>, out: &mut Vec<CognitiveBias>)
    requires
        biases_labelled(old(out)@),
    ensures
        biases_labelled(final(out)@),
        bias_cores_of(final(out)@) == bias_cores_of(old(out)@) + per_position(
            graph.propositions@.len() as int,
            |i: int| anchoring_core(*graph, bands@, i),
        ),
{
    let ghost f = |i: int| anchoring_core(*graph, bands@, i);
    let mut i: usize = 0;
    while i < graph.propositions.len()
        invariant
            biases_labelled(out@),
            f == (|i: int| anchoring_core(*graph, bands@, i)),
            i <= graph.propositions@.len(),
            bias_cores_of(out@) == bias_cores_of(old(out)@) + per_position(i as int, f),
        decreases graph.propositions.len() - i,
    {
        let p = &graph.propositions[i];
        let ghost before = bias_cores_of(out@);
        if p.prop_type == PropositionKind::Assumption && p.confidence == Confidence::UnstatedAsAbsolute {
            let backing = incoming_positions(graph, &p.id, RelationshipKind::Supports, RelationshipKind::Supports);
            proof {
                assert(backing@.map_values(|w: usize| graph.relationships@[w as int]).len() == backing@.len());
            }
            if backing.len() == 0 {
                let tail = if p.is_anchored {
                    " This proposition has been flagged as an anchoring point."
                } else {
                    " Consider what evidence would be needed to verify this assumption."
                };
                let description = String::from_str("The assumption ").concat(quoted(&p.statement).as_str()).concat(
                    " is stated as an absolute without any supporting evidence. This is a classic anchoring pattern: an initial value or belief is accepted by System 1 without verification, and all subsequent reasoning is adjusted relative to this anchor rather than being independently evaluated.",
                ).concat(tail);
                push_bias(
                    out,
                    "bias-anchoring-",
                    "Anchoring Effect",
                    "Thinking, Fast and Slow, Chapter 11: Anchors",
                    description,
                    single(&p.id),
                    band_of(bands, i),
                );
            }
        }
        proof {
            assert(graph.propositions@[i as int] == *p);
            assert(bias_cores_of(out@) =~= bias_cores_of(old(out)@) + per_position(i + 1, f));
        }
        i = i + 1;
    }
}

fn detect_confirmation(graph: &LogicalGraph, bands: &Vec<BiasSeverity>, out: &mut Vec<CognitiveBias>)
    requires
        biases_labelled(old(out)@),
    ensures
        biases_labelled(final(out)@),
        bias_cores_of(final(out)@) == bias_cores_of(old(out)@) + per_position(
            graph.propositions@.len() as int,
            |i: int| confirmation_core(*graph, bands@, i),
        ),
{
    let ghost f = |i: int| confirmation_core(*graph, bands@, i);
    let mut i: usize = 0;
    while i < graph.propositions.len()
        invariant
            biases_labelled(out@),
            f == (|i: int| confirmation_core(*graph, bands@, i)),
            i <= graph.propositions@.len(),
            bias_cores_of(out@) == bias_cores_of(old(out)@) + per_position(i as int, f),
        decreases graph.propositions.len() - i,
    {
        let p = &graph.propositions[i];
        if p.prop_type == PropositionKind::Claim {
            let sup = supporters_of(graph, &p.id);
            let challenges = incoming_positions(graph, &p.id, RelationshipKind::Contradicts, RelationshipKind::Attacks);
            proof {
                assert(sup@.map_values(|s: String| s@).len() == sup@.len());
                assert(challenges@.map_values(|w: usize| graph.relationships@[w as int]).len() == challenges@.len());
            }
            if sup.len() >= 2 && challenges.len() == 0 {
                let mut ids: Vec<String> = Vec::new();
                ids.push(p.id.clone());
                let mut k: usize = 0;
                while k < sup.len()
                    invariant
                        k <= sup@.len(),
                        ids@.len() == k + 1,
                        ids@[0]@ == p.id@,
                        forall|t: int| 0 <= t < k ==> ids@[t + 1]@ == sup@[t]@,
                    decreases sup.len() - k,
                {
                    ids.push(sup[k].clone());
                    k = k + 1;
                }
                proof {
                    assert(id_seq(ids@) =~= seq![p.id@] + sup@.map_values(|s: String| s@));
                }
                let description = String::from_str("The claim ").concat(quoted(&p.statement).as_str()).concat(
                    " has ",
                ).concat((sup.len() as u128).to_string().as_str()).concat(
                    " supporting pieces of evidence but zero contradicting or challenging inputs. This one-sided evidence pattern suggests confirmation bias: the reasoner sought only evidence that supports their conclusion and did not actively look for counter-evidence. A robust argument should include and address opposing viewpoints.",
                );
                push_bias(
                    out,
                    "bias-confirmation-",
                    "Confirmation Bias",
                    "Thinking, Fast and Slow, Chapter 7: A Machine for Jumping to Conclusions",
                    description,
                    ids,
                    band_of(bands, i),
                );
            }
        }
        proof {
            assert(graph.propositions@[i as int] == *p);
            assert(bias_cores_of(out@) =~= bias_cores_of(old(out)@) + per_position(i + 1, f));
        }
        i = i + 1;
    }
}

fn subjective_word(s: &Vec<char>) -> (r: Option<&'static str>)
    ensures
        r is Some <==> has_subjective_word(s@),
{
    if contains_chars(s, "feels") {
        Some("feels")
    } else if contains_chars(s, "seems") {
        Some("seems")
    } else if contains_chars(s, "looks like") {
        Some("looks like")
    } else if contains_chars(s, "appears") {
        Some("appears")
    } else if contains_chars(s, "intuition") {
        Some("intuition")
    } else if contains_chars(s, "gut") {
        Some("gut")
    } else if contains_chars(s, "sense") {
        Some("sense")
    } else if contains_chars(s, "impression") {
        Some("impression")
    } else if contains_chars(s, "vibe") {
        Some("vibe")
    } else {
        None
    }
}

fn detect_availability(
    graph: &LogicalGraph,
    folded: &Vec<FoldedText>,
    bands: &Vec<BiasSeverity>,
    out: &mut Vec<CognitiveBias>,
)
    requires
        biases_labelled(old(out)@),
        folds(graph.propositions@, folded@),
    ensures
        biases_labelled(final(out)@),
        bias_cores_of(final(out)@) == bias_cores_of(old(out)@) + per_position(
            graph.propositions@.len() as int,
            |i: int| availability_core(*graph, bands@, i),
        ),
{
    let ghost f = |i: int| availability_core(*graph, bands@, i);
    let mut i: usize = 0;
    while i < graph.propositions.len()
        invariant
            biases_labelled(out@),
            f == (|i: int| availability_core(*graph, bands@, i)),
            folds(graph.propositions@, folded@),
            i <= graph.propositions@.len(),
            bias_cores_of(out@) == bias_cores_of(old(out)@) + per_position(i as int, f),
        decreases graph.propositions.len() - i,
    {
        let p = &graph.propositions[i];
        let t = &folded[i];
        if p.prop_type == PropositionKind::Evidence && (p.confidence == Confidence::High || p.confidence
            == Confidence::Medium) {
            let word = match subjective_word(&t.statement) {
                Some(w) => Some(w),
                None => subjective_word(&t.expression),
            };
            match word {
                Some(w) => {
                    let description = String::from_str("The evidence ").concat(quoted(&p.statement).as_str()).concat(
                        " uses the subjective term \"",
                    ).concat(w).concat(
                        "\" which suggests a System 1 judgment based on what is easily available in memory rather than systematic analysis. Vivid, recent, or emotionally salient information is being treated as representative data. This evidence should be supplemented with objective measurements.",
                    );
                    push_bias(
                        out,
                        "bias-availability-",
                        "Availability Heuristic",
                        "Thinking, Fast and Slow, Chapter 12: The Science of Availability",
                        description,
                        single(&p.id),
                        band_of(bands, i),
                    );
                },
                None => {},
            }
        }
        proof {
            assert(graph.propositions@[i as int] == *p);
            assert(bias_cores_of(out@) =~= bias_cores_of(old(out)@) + per_position(i + 1, f));
        }
        i = i + 1;
    }
}

} // verus!

verus! {

/// Number of `depends_on` and `assumes` edges that start at `id`.
fn count_outgoing_dependencies(graph: &LogicalGraph, id: &String) -> (r: usize)
    ensures
        r == outgoing_dependencies(graph.relationships@, id@),
{
    let ghost rels = graph.relationships@;
    let ghost pred = |r: Relationship| r.from_id@ == id@ && (r.rel_type == RelationshipKind::DependsOn
        || r.rel_type == RelationshipKind::Assumes);
    let mut n: usize = 0;
    let mut i: usize = 0;
    while i < graph.relationships.len()
        invariant
            rels == graph.relationships@,
            pred == (|r: Relationship| r.from_id@ == id@ && (r.rel_type == RelationshipKind::DependsOn
                || r.rel_type == RelationshipKind::Assumes)),
            i <= rels.len(),
            n == rels.take(i as int).filter(pred).len(),
            n <= i,
        decreases rels.len() - i,
    {
        proof {
            crate::types::lemma_take_filter_step(rels, i as int, pred);
        }
        let rel = &graph.relationships[i];
        if rel.from_id == *id && (rel.rel_type == RelationshipKind::DependsOn || rel.rel_type
            == RelationshipKind::Assumes) {
            n = n + 1;
        }
        i = i + 1;
    }
    proof {
        assert(rels.take(i as int) =~= rels);
    }
    n
}

/// Whether some edge into `id` starts at a constraint or a risk.
fn has_constraint_source(graph: &LogicalGraph, id: &String) -> (r: bool)
    ensures
        r == is_constrained(*graph, id@),
{
    let mut w: usize = 0;
    while w < graph.relationships.len()
        invariant
            w <= graph.relationships@.len(),
            forall|q: int|
                0 <= q < w ==> !(#[trigger] graph.relationships@[q].to_id@ == id@ && lookup(
                    graph.propositions@,
                    graph.relationships@[q].from_id@,
                ) is Some && ({
                    let k = graph.propositions@[lookup(
                        graph.propositions@,
                        graph.relationships@[q].from_id@,
                    ).unwrap()].prop_type;
                    k == PropositionKind::Constraint || k == PropositionKind::Risk
                })),
        decreases graph.relationships.len() - w,
    {
        let rel = &graph.relationships[w];
        if rel.to_id == *id {
            match crate::types::find_index(&graph.propositions, &rel.from_id) {
                Some(q) => {
                    let k = graph.propositions[q].prop_type;
                    if k == PropositionKind::Constraint || k == PropositionKind::Risk {
                        assert(graph.relationships@[w as int] == *rel);
                        return true;
                    }
                },
                None => {},
            }
        }
        w = w + 1;
    }
    false
}

fn detect_planning(graph: &LogicalGraph, bands: &Vec<BiasSeverity>, out: &mut Vec<CognitiveBias>)
    requires
        biases_labelled(old(out)@),
    ensures
        biases_labelled(final(out)@),
        bias_cores_of(final(out)@) == bias_cores_of(old(out)@) + per_position(
            graph.propositions@.len() as int,
            |i: int| planning_core(*graph, bands@, i),
        ),
{
    let ghost f = |i: int| planning_core(*graph, bands@, i);
    let mut i: usize = 0;
    while i < graph.propositions.len()
        invariant
            biases_labelled(out@),
            f == (|i: int| planning_core(*graph, bands@, i)),
            i <= graph.propositions@.len(),
            bias_cores_of(out@) == bias_cores_of(old(out)@) + per_position(i as int, f),
        decreases graph.propositions.len() - i,
    {
        let p = &graph.propositions[i];
        if p.prop_type == PropositionKind::Claim && p.is_load_bearing && p.confidence == Confidence::High
            && count_outgoing_dependencies(graph, &p.id) == 0 && !has_constraint_source(graph, &p.id) {
            let description = String::from_str("The claim ").concat(quoted(&p.statement).as_str()).concat(
                " is load-bearing and stated with high confidence, but has no decomposition into sub-tasks, dependencies, or constraints. This is a hallmark of the Planning Fallacy: overly optimistic planning that fails to account for the complexity of execution. Consider breaking this into concrete, measurable sub-goals.",
            );
            push_bias(
                out,
                "bias-planning-",
                "Planning Fallacy",
                "Thinking, Fast and Slow, Chapter 23: The Outside View",
                description,
                single(&p.id),
                band_of(bands, i),
            );
        }
        proof {
            assert(graph.propositions@[i as int] == *p);
            assert(bias_cores_of(out@) =~= bias_cores_of(old(out)@) + per_position(i + 1, f));
        }
        i = i + 1;
    }
}

/// Whether the two variable lists share a variable.
fn overlaps(a: &Vec<String>, b: &Vec<String>) -> (r: bool)
    ensures
        r == exists|x: Seq<char>| id_seq(a@).contains(x) && id_seq(b@).contains(x),
{
    let mut i: usize = 0;
    while i < a.len()
        invariant
            i <= a@.len(),
            forall|t: int| 0 <= t < i ==> !id_seq(b@).contains(#[trigger] a@[t]@),
        decreases a.len() - i,
    {
        let mut j: usize = 0;
        while j < b.len()
            invariant
                i < a@.len(),
                j <= b@.len(),
                forall|t: int| 0 <= t < j ==> b@[t]@ != a@[i as int]@,
            decreases b.len() - j,
        {
            if a[i] == b[j] {
                proof {
                    assert(id_seq(a@)[i as int] == a@[i as int]@);
                    assert(id_seq(b@)[j as int] == a@[i as int]@);
                    assert(id_seq(a@).contains(a@[i as int]@));
                    assert(id_seq(b@).contains(a@[i as int]@));
                }
                return true;
            }
            j = j + 1;
        }
        proof {
            if id_seq(b@).contains(a@[i as int]@) {
                let t = choose|t: int| 0 <= t < id_seq(b@).len() && id_seq(b@)[t] == a@[i as int]@;
                assert(b@[t]@ == a@[i as int]@);
            }
        }
        i = i + 1;
    }
    proof {
        if exists|x: Seq<char>| id_seq(a@).contains(x) && id_seq(b@).contains(x) {
            let x = choose|x: Seq<char>| id_seq(a@).contains(x) && id_seq(b@).contains(x);
            let t = choose|t: int| 0 <= t < id_seq(a@).len() && id_seq(a@)[t] == x;
            assert(a@[t]@ == x);
        }
    }
    false
}

fn join_ids(v: &Vec<String>) -> String {
    let mut out = String::new();
    let mut k: usize = 0;
    while k < v.len()
        decreases v.len() - k,
    {
        if k > 0 {
            out = out.concat(", ");
        }
        out = out.concat(v[k].as_str());
        k = k + 1;
    }
    out
}

fn detect_substitution(graph: &LogicalGraph, bands: &Vec<BiasSeverity>, out: &mut Vec<CognitiveBias>)
    requires
        biases_labelled(old(out)@),
    ensures
        biases_labelled(final(out)@),
        bias_cores_of(final(out)@) == bias_cores_of(old(out)@) + per_position(
            graph.propositions@.len() as int,
            |i: int| substitution_core(*graph, bands@, i),
        ),
{
    let ghost f = |i: int| substitution_core(*graph, bands@, i);
    let mut i: usize = 0;
    while i < graph.propositions.len()
        invariant
            biases_labelled(out@),
            f == (|i: int| substitution_core(*graph, bands@, i)),
            i <= graph.propositions@.len(),
            bias_cores_of(out@) == bias_cores_of(old(out)@) + per_position(i as int, f),
        decreases graph.propositions.len() - i,
    {
        let p = &graph.propositions[i];
        let ghost base = bias_cores_of(out@);
        if p.prop_type == PropositionKind::Claim {
            let cv = extract_variables(p.formal_expression.as_str());
            proof {
                if exists|x: Seq<char>| is_variable_of(p.formal_expression@, x) {
                    let x = choose|x: Seq<char>| is_variable_of(p.formal_expression@, x);
                    assert(id_seq(cv@).contains(x));
                }
                if cv.len() > 0 {
                    assert(id_seq(cv@)[0] == cv@[0]@);
                    assert(id_seq(cv@).contains(cv@[0]@));
                }
            }
            if cv.len() > 0 {
                let sup = supporters_of(graph, &p.id);
                let ghost ss = supporter_ids(graph.relationships@, p.id@);
                let mut k: usize = 0;
                while k < sup.len()
                    invariant
                        biases_labelled(out@),
                        i < graph.propositions@.len(),
                        *p == graph.propositions@[i as int],
                        ss == supporter_ids(graph.relationships@, p.id@),
                        sup@.map_values(|s: String| s@) == ss,
                        forall|x: Seq<char>| #[trigger] id_seq(cv@).contains(x) <==> is_variable_of(p.formal_expression@, x),
                        k <= sup@.len(),
                        bias_cores_of(out@) == base + substitution_row(*graph, bands@, i as int, k as int),
                    decreases sup.len() - k,
                {
                    proof {
                        assert(ss[k as int] == sup@[k as int]@);
                    }
                    let ghost before_k = bias_cores_of(out@);
                    match crate::types::find_index(&graph.propositions, &sup[k]) {
                        Some(qi) => {
                            let q = &graph.propositions[qi];
                            let ev = extract_variables(q.formal_expression.as_str());
                            proof {
                                if exists|x: Seq<char>| is_variable_of(q.formal_expression@, x) {
                                    let x = choose|x: Seq<char>| is_variable_of(q.formal_expression@, x);
                                    assert(id_seq(ev@).contains(x));
                                }
                                if ev.len() > 0 {
                                    assert(id_seq(ev@)[0] == ev@[0]@);
                                    assert(id_seq(ev@).contains(ev@[0]@));
                                }
                            }
                            let shared = overlaps(&cv, &ev);
                            proof {
                                assert(shared == exists|x: Seq<char>| is_variable_of(p.formal_expression@, x) && is_variable_of(q.formal_expression@, x)) by {
                                    if shared {
                                        let x = choose|x: Seq<char>| id_seq(cv@).contains(x) && id_seq(ev@).contains(x);
                                        assert(is_variable_of(p.formal_expression@, x));
                                    }
                                    if exists|x: Seq<char>| is_variable_of(p.formal_expression@, x) && is_variable_of(q.formal_expression@, x) {
                                        let x = choose|x: Seq<char>| is_variable_of(p.formal_expression@, x) && is_variable_of(q.formal_expression@, x);
                                        assert(id_seq(cv@).contains(x) && id_seq(ev@).contains(x));
                                    }
                                }
                            }
                            if ev.len() > 0 && !shared {
                                let mut ids: Vec<String> = Vec::new();
                                ids.push(p.id.clone());
                                ids.push(q.id.clone());
                                proof {
                                    assert(id_seq(ids@) =~= seq![p.id@, q.id@]);
                                }
                                let description = String::from_str("The claim ").concat(quoted(&p.statement).as_str()).concat(
                                    " appears to be about [",
                                ).concat(join_ids(&cv).as_str()).concat("], but the supporting evidence ").concat(
                                    quoted(&q.statement).as_str(),
                                ).concat(" measures [").concat(join_ids(&ev).as_str()).concat(
                                    "]. System 1 may be substituting an easy-to-measure proxy for the actual question being asked. Verify that the evidence directly addresses the claim's core variable.",
                                );
                                push_bias(
                                    out,
                                    "bias-substitution-",
                                    "Attribute Substitution",
                                    "Thinking, Fast and Slow, Chapter 9: Answering an Easier Question",
                                    description,
                                    ids,
                                    band_of(bands, i),
                                );
                                proof {
                                    assert(id_seq(ev@)[0] == ev@[0]@);
                                    assert(is_variable_of(q.formal_expression@, ev@[0]@));
                                    assert(lookup(graph.propositions@, ss[k as int]) == Some(qi as int));
                                    assert(graph.propositions@[qi as int] == *q);
                                    assert(substitution_row(*graph, bands@, i as int, k + 1) == substitution_row(*graph, bands@, i as int, k as int).push(
                                        (seq![p.id@, q.id@], "Attribute Substitution"@, band_at(bands@, i as int), 1u8)));
                                }
                            } else {
                                proof {
                                    assert(substitution_row(*graph, bands@, i as int, k + 1) == substitution_row(*graph, bands@, i as int, k as int));
                                }
                            }
                        },
                        None => {
                            proof {
                                assert(substitution_row(*graph, bands@, i as int, k + 1) == substitution_row(*graph, bands@, i as int, k as int));
                            }
                        },
                    }
                    proof {
                        assert(bias_cores_of(out@) =~= base + substitution_row(*graph, bands@, i as int, k + 1));
                    }
                    k = k + 1;
                }
                proof {
                    assert(sup@.map_values(|s: String| s@).len() == sup@.len());
                }
            }
        }
        proof {
            assert(graph.propositions@[i as int] == *p);
            assert(bias_cores_of(out@) =~= bias_cores_of(old(out)@) + per_position(i + 1, f));
        }
        i = i + 1;
    }
}

/// Cognitive biases, detector by detector: anchoring, confirmation bias, availability,
/// planning fallacy and attribute substitution. `bands` gives, position by position, the
/// severity that the centrality of each proposition calls for (`Low` past its end); every
/// record is tagged System 1, and record identifiers count from one across all detectors.
pub fn detect_biases(graph: &LogicalGraph, bands: &Vec<BiasSeverity>) -> (r: Vec<CognitiveBias>)
    ensures
        bias_cores_of(r@) == bias_cores(*graph, bands@),
        biases_labelled(r@),
{
    let folded = fold_all(&graph.propositions);
    let mut out: Vec<CognitiveBias> = Vec::new();
    proof {
        assert(bias_cores_of(out@) =~= Seq::<BiasCore>::empty());
    }
    detect_anchoring(graph, bands, &mut out);
    detect_confirmation(graph, bands, &mut out);
    detect_availability(graph, &folded, bands, &mut out);
    detect_planning(graph, bands, &mut out);
    detect_substitution(graph, bands, &mut out);
    proof {
        assert(bias_cores_of(out@) =~= bias_cores(*graph, bands@));
    }
    out
}

} // verus!
