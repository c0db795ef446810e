use clarity_engine::argument_scorer::{argument_counts, count_vulnerable_assumptions};
use clarity_engine::bias_detector::detect_biases;
use clarity_engine::centrality::shortest_path_dag;
use clarity_engine::contradiction::detect_contradictions;
use clarity_engine::cycle_detection::detect_cycles;
use clarity_engine::fallacy_detector::detect_fallacies;
use clarity_engine::parse::{extract_duration, extract_numeric_value, parse_implication, DurationOp};
use clarity_engine::text::chars_of;
use clarity_engine::topo_sort::topological_sort;
use clarity_engine::types::{
    is_dependency_edge, BiasSeverity, Confidence, Contradiction, ContradictionKind, FallacyPattern,
    LogicalGraph, Proposition, PropositionKind, Relationship, RelationshipKind, Severity, Strength,
};
use clarity_engine::variables::extract_variables;

fn kind(s: &str) -> PropositionKind {
    match s {
        "claim" => PropositionKind::Claim,
        "evidence" => PropositionKind::Evidence,
        "assumption" => PropositionKind::Assumption,
        "constraint" => PropositionKind::Constraint,
        _ => PropositionKind::Risk,
    }
}

fn confidence(s: &str) -> Confidence {
    match s {
        "high" => Confidence::High,
        "medium" => Confidence::Medium,
        "low" => Confidence::Low,
        _ => Confidence::UnstatedAsAbsolute,
    }
}

fn rel_kind(s: &str) -> RelationshipKind {
    match s {
        "supports" => RelationshipKind::Supports,
        "contradicts" => RelationshipKind::Contradicts,
        "depends_on" => RelationshipKind::DependsOn,
        "attacks" => RelationshipKind::Attacks,
        _ => RelationshipKind::Assumes,
    }
}

fn make_prop(id: &str, prop_type: &str, conf: &str) -> Proposition {
    Proposition {
        id: id.to_string(),
        statement: format!("Test {} proposition", prop_type),
        formal_expression: format!("{} → true", id),
        prop_type: kind(prop_type),
        confidence: confidence(conf),
        is_implicit: false,
        is_load_bearing: prop_type == "claim",
        is_anchored: false,
    }
}

fn make_rel(id: &str, from: &str, to: &str, rel_type: &str) -> Relationship {
    Relationship {
        id: id.to_string(),
        from_id: from.to_string(),
        to_id: to.to_string(),
        rel_type: rel_kind(rel_type),
        strength: Strength::Strong,
        label: None,
    }
}

fn make_graph(props: Vec<Proposition>, rels: Vec<Relationship>) -> LogicalGraph {
    LogicalGraph { propositions: props, relationships: rels }
}

fn ids(v: &[&str]) -> Vec<String> {
    v.iter().map(|s| s.to_string()).collect()
}

fn months(text: &str) -> (DurationOp, f64) {
    let d = extract_duration(&chars_of(text)).unwrap();
    let value = d.mantissa as f64 * d.quarters as f64 / (4.0 * 10f64.powi(d.scale as i32));
    (d.op, value)
}

// ── cycles ──

#[test]
fn test_triangle_cycle() {
    let graph = make_graph(
        vec![
            make_prop("A", "claim", "high"),
            make_prop("B", "evidence", "high"),
            make_prop("C", "evidence", "high"),
        ],
        vec![
            make_rel("r1", "A", "B", "supports"),
            make_rel("r2", "B", "C", "supports"),
            make_rel("r3", "C", "A", "supports"),
        ],
    );
    let cycles = detect_cycles(&graph);
    assert_eq!(cycles.len(), 1, "Should detect exactly one cycle");
    assert_eq!(cycles[0].len(), 3, "Cycle should have 3 nodes");
}

#[test]
fn test_linear_chain_no_cycle() {
    let graph = make_graph(
        vec![
            make_prop("A", "claim", "high"),
            make_prop("B", "evidence", "high"),
            make_prop("C", "evidence", "high"),
        ],
        vec![make_rel("r1", "A", "B", "supports"), make_rel("r2", "B", "C", "supports")],
    );
    let cycles = detect_cycles(&graph);
    assert_eq!(cycles.len(), 0, "Linear chain should have no cycles");
}

#[test]
fn test_self_loop() {
    let graph = make_graph(
        vec![make_prop("A", "claim", "high")],
        vec![make_rel("r1", "A", "A", "depends_on")],
    );
    let cycles = detect_cycles(&graph);
    assert_eq!(cycles.len(), 1, "Should detect self-loop");
    assert_eq!(cycles[0].len(), 1);
}

#[test]
fn test_two_separate_cycles() {
    let graph = make_graph(
        vec![
            make_prop("A", "claim", "high"),
            make_prop("B", "evidence", "high"),
            make_prop("C", "claim", "high"),
            make_prop("D", "evidence", "high"),
        ],
        vec![
            make_rel("r1", "A", "B", "supports"),
            make_rel("r2", "B", "A", "supports"),
            make_rel("r3", "C", "D", "depends_on"),
            make_rel("r4", "D", "C", "depends_on"),
        ],
    );
    let cycles = detect_cycles(&graph);
    assert_eq!(cycles.len(), 2, "Should detect two separate cycles");
}

#[test]
fn test_cycle_embedded_in_acyclic_structure() {
    let graph = make_graph(
        vec![
            make_prop("E1", "evidence", "high"),
            make_prop("E2", "evidence", "high"),
            make_prop("C1", "claim", "high"),
            make_prop("A1", "assumption", "medium"),
        ],
        vec![
            make_rel("r1", "E1", "C1", "supports"),
            make_rel("r2", "E2", "C1", "supports"),
            make_rel("r3", "C1", "A1", "depends_on"),
            make_rel("r4", "A1", "C1", "supports"),
        ],
    );
    let cycles = detect_cycles(&graph);
    assert_eq!(cycles.len(), 1, "Should detect exactly one cycle in mixed graph");
    let cycle = &cycles[0];
    assert!(cycle.contains(&"C1".to_string()));
    assert!(cycle.contains(&"A1".to_string()));
}

#[test]
fn test_ignores_contradiction_edges() {
    let graph = make_graph(
        vec![make_prop("A", "claim", "high"), make_prop("B", "evidence", "high")],
        vec![make_rel("r1", "A", "B", "supports"), make_rel("r2", "B", "A", "contradicts")],
    );
    let cycles = detect_cycles(&graph);
    assert_eq!(cycles.len(), 0, "contradicts edges should not form cycles");
}

#[test]
fn cycles_in_discovery_order_without_rotations() {
    // The back edge from C closes A→B→C; a second edge C→A closes the same cycle again.
    let graph = make_graph(
        vec![
            make_prop("A", "claim", "high"),
            make_prop("B", "evidence", "high"),
            make_prop("C", "evidence", "high"),
        ],
        vec![
            make_rel("r1", "A", "B", "supports"),
            make_rel("r2", "B", "C", "assumes"),
            make_rel("r3", "C", "A", "supports"),
            make_rel("r4", "C", "A", "depends_on"),
        ],
    );
    let cycles = detect_cycles(&graph);
    assert_eq!(cycles, vec![ids(&["A", "B", "C"])]);
}

#[test]
fn cycle_members_are_graph_nodes_linked_by_dependencies() {
    let graph = make_graph(
        vec![
            make_prop("X", "claim", "high"),
            make_prop("Y", "evidence", "high"),
            make_prop("Z", "evidence", "high"),
        ],
        vec![
            make_rel("r1", "Y", "Z", "depends_on"),
            make_rel("r2", "Z", "Y", "assumes"),
            make_rel("r3", "X", "Y", "attacks"),
        ],
    );
    let cycles = detect_cycles(&graph);
    assert_eq!(cycles, vec![ids(&["Y", "Z"])]);
}

// ── topological order ──

#[test]
fn test_linear_chain() {
    let graph = make_graph(
        vec![
            make_prop("A", "evidence", "high"),
            make_prop("B", "evidence", "high"),
            make_prop("C", "claim", "high"),
        ],
        vec![make_rel("r1", "A", "B", "supports"), make_rel("r2", "B", "C", "supports")],
    );
    let order = topological_sort(&graph);
    assert_eq!(order.len(), 3);
    let pos_a = order.iter().position(|x| x == "A").unwrap();
    let pos_b = order.iter().position(|x| x == "B").unwrap();
    let pos_c = order.iter().position(|x| x == "C").unwrap();
    assert!(pos_a < pos_b, "A should come before B");
    assert!(pos_b < pos_c, "B should come before C");
}

#[test]
fn test_diamond_dependency() {
    let graph = make_graph(
        vec![
            make_prop("A", "evidence", "high"),
            make_prop("B", "evidence", "high"),
            make_prop("C", "evidence", "high"),
            make_prop("D", "claim", "high"),
        ],
        vec![
            make_rel("r1", "A", "B", "supports"),
            make_rel("r2", "A", "C", "supports"),
            make_rel("r3", "B", "D", "supports"),
            make_rel("r4", "C", "D", "supports"),
        ],
    );
    let order = topological_sort(&graph);
    assert_eq!(order.len(), 4);
    let pos_a = order.iter().position(|x| x == "A").unwrap();
    let pos_d = order.iter().position(|x| x == "D").unwrap();
    assert!(pos_a < pos_d, "A should come before D");
}

#[test]
fn test_cycle_excluded() {
    let graph = make_graph(
        vec![
            make_prop("A", "claim", "high"),
            make_prop("B", "evidence", "high"),
            make_prop("C", "evidence", "high"),
        ],
        vec![make_rel("r1", "A", "B", "supports"), make_rel("r2", "B", "A", "supports")],
    );
    let order = topological_sort(&graph);
    assert!(order.contains(&"C".to_string()), "C should be in result");
    assert_eq!(order.len(), 1, "Only non-cyclic nodes should appear");
}

#[test]
fn test_ignores_non_dependency_edges() {
    let graph = make_graph(
        vec![make_prop("A", "claim", "high"), make_prop("B", "claim", "high")],
        vec![make_rel("r1", "A", "B", "contradicts")],
    );
    let order = topological_sort(&graph);
    assert_eq!(order.len(), 2, "Both nodes should appear — contradicts is not a dependency");
}

#[test]
fn topological_ties_break_by_identifier() {
    let graph = make_graph(
        vec![
            make_prop("d", "claim", "high"),
            make_prop("b", "evidence", "high"),
            make_prop("c", "evidence", "high"),
            make_prop("a", "evidence", "high"),
        ],
        vec![
            make_rel("r1", "b", "d", "supports"),
            make_rel("r2", "a", "d", "supports"),
            make_rel("r3", "c", "d", "assumes"),
        ],
    );
    assert_eq!(topological_sort(&graph), ids(&["a", "b", "c", "d"]));
}

#[test]
fn topological_order_leaves_out_what_a_cycle_reaches() {
    // A→B→C→A; D depends on the cycle and never becomes free.
    let graph = make_graph(
        vec![
            make_prop("A", "claim", "high"),
            make_prop("B", "claim", "high"),
            make_prop("C", "claim", "high"),
            make_prop("D", "claim", "high"),
        ],
        vec![
            make_rel("r1", "A", "B", "supports"),
            make_rel("r2", "B", "C", "supports"),
            make_rel("r3", "C", "A", "supports"),
            make_rel("r4", "C", "D", "supports"),
        ],
    );
    assert_eq!(topological_sort(&graph), Vec::<String>::new());
    let cycles = detect_cycles(&graph);
    assert_eq!(cycles.len(), 1);
    assert_eq!(cycles[0].len(), 3);
    let fallacies = detect_fallacies(&graph, &cycles);
    assert_eq!(
        fallacies.iter().filter(|f| f.pattern_type == FallacyPattern::Cycle).count(),
        1
    );
}

// ── fallacies ──

#[test]
fn test_circular_reasoning_from_cycles() {
    let graph = make_graph(
        vec![make_prop("A", "claim", "high"), make_prop("B", "evidence", "high")],
        vec![],
    );
    let cycles = vec![vec!["A".to_string(), "B".to_string()]];
    let fallacies = detect_fallacies(&graph, &cycles);
    assert_eq!(fallacies.len(), 1);
    assert_eq!(fallacies[0].pattern_type, FallacyPattern::Cycle);
    assert!(fallacies[0].name.contains("Circular"));
}

#[test]
fn test_hasty_generalization() {
    let mut claim = make_prop("C1", "claim", "high");
    claim.statement = "We should pivot to Enterprise".to_string();
    let evidence = make_prop("E1", "evidence", "high");
    let graph = make_graph(vec![claim, evidence], vec![make_rel("r1", "E1", "C1", "supports")]);
    let fallacies = detect_fallacies(&graph, &vec![]);
    assert!(
        fallacies.iter().any(|f| f.pattern_type == FallacyPattern::HastyGeneralization),
        "Should detect hasty generalization"
    );
}

#[test]
fn test_no_hasty_gen_with_enough_evidence() {
    let graph = make_graph(
        vec![
            make_prop("C1", "claim", "high"),
            make_prop("E1", "evidence", "high"),
            make_prop("E2", "evidence", "high"),
            make_prop("E3", "evidence", "high"),
        ],
        vec![
            make_rel("r1", "E1", "C1", "supports"),
            make_rel("r2", "E2", "C1", "supports"),
            make_rel("r3", "E3", "C1", "supports"),
        ],
    );
    let fallacies = detect_fallacies(&graph, &vec![]);
    assert!(
        !fallacies.iter().any(|f| f.pattern_type == FallacyPattern::HastyGeneralization),
        "Should NOT detect hasty generalization with 3 evidence paths"
    );
}

#[test]
fn test_appeal_to_authority() {
    let mut evidence = make_prop("E1", "evidence", "high");
    evidence.statement = "Expert says market timing is right".to_string();
    evidence.formal_expression = "expert_opinion(market_timing) = positive".to_string();
    let claim = make_prop("C1", "claim", "high");
    let graph = make_graph(vec![evidence, claim], vec![make_rel("r1", "E1", "C1", "supports")]);
    let fallacies = detect_fallacies(&graph, &vec![]);
    assert!(
        fallacies.iter().any(|f| f.pattern_type == FallacyPattern::AppealToAuthority),
        "Should detect appeal to authority"
    );
}

#[test]
fn test_no_fallacies_clean_graph() {
    let mut claim = make_prop("C1", "claim", "medium");
    claim.statement = "Revenue will increase".to_string();
    let graph = make_graph(
        vec![claim, make_prop("E1", "evidence", "high"), make_prop("E2", "evidence", "high")],
        vec![make_rel("r1", "E1", "C1", "supports"), make_rel("r2", "E2", "C1", "supports")],
    );
    let fallacies = detect_fallacies(&graph, &vec![]);
    assert_eq!(fallacies.len(), 0, "Clean graph should have no fallacies");
}

#[test]
fn false_dilemma_from_binary_supporter() {
    let mut claim = make_prop("C1", "claim", "medium");
    claim.statement = "We must act".to_string();
    let mut e1 = make_prop("E1", "evidence", "high");
    e1.statement = "Either we grow EITHER we die".to_string();
    let e2 = make_prop("E2", "evidence", "high");
    let graph = make_graph(
        vec![claim, e1, e2],
        vec![make_rel("r1", "E1", "C1", "supports"), make_rel("r2", "E2", "C1", "supports")],
    );
    let fallacies = detect_fallacies(&graph, &vec![]);
    assert_eq!(fallacies.len(), 1);
    assert_eq!(fallacies[0].pattern_type, FallacyPattern::FalseDilemma);
    assert_eq!(fallacies[0].affected_node_ids, ids(&["C1", "E1", "E2"]));
    assert_eq!(fallacies[0].id, "fallacy-dilemma-1");
}

#[test]
fn fallacy_counter_is_shared_across_detectors() {
    let mut claim = make_prop("C1", "claim", "high");
    claim.statement = "Pivot".to_string();
    let mut e1 = make_prop("E1", "evidence", "high");
    e1.statement = "The analyst argues it works".to_string();
    let graph = make_graph(vec![claim, e1], vec![make_rel("r1", "E1", "C1", "supports")]);
    let cycles = vec![ids(&["C1"])];
    let fallacies = detect_fallacies(&graph, &cycles);
    let got: Vec<&str> = fallacies.iter().map(|f| f.id.as_str()).collect();
    assert_eq!(got, vec!["fallacy-circular-1", "fallacy-hasty-2", "fallacy-authority-3"]);
    assert_eq!(fallacies[1].affected_node_ids, ids(&["C1", "E1"]));
}

// ── contradictions ──

#[test]
fn test_explicit_contradiction() {
    let mut p1 = make_prop("p1", "claim", "high");
    p1.statement = "We should pivot to Enterprise".to_string();
    p1.formal_expression = "pivot_enterprise → optimal_outcome".to_string();
    let mut p2 = make_prop("p2", "constraint", "high");
    p2.statement = "Rebuild takes >12 months".to_string();
    p2.formal_expression = "time(rebuild) > 12_months".to_string();
    let graph = make_graph(vec![p1, p2], vec![make_rel("r1", "p2", "p1", "contradicts")]);
    let result = detect_contradictions(&graph);
    assert_eq!(result.len(), 1, "Should detect the explicit contradiction");
    assert_eq!(result[0].contradiction_type, ContradictionKind::Logical);
    assert!(result[0].proposition_ids.contains(&"p1".to_string()));
    assert!(result[0].proposition_ids.contains(&"p2".to_string()));
}

#[test]
fn test_no_contradictions() {
    let graph = make_graph(
        vec![make_prop("p1", "claim", "high"), make_prop("p2", "evidence", "high")],
        vec![make_rel("r1", "p2", "p1", "supports")],
    );
    let result = detect_contradictions(&graph);
    assert_eq!(result.len(), 0, "No contradictions should be found");
}

#[test]
fn test_logical_implication_conflict() {
    let mut p1 = make_prop("p1", "claim", "high");
    p1.formal_expression = "growth → success".to_string();
    let mut p2 = make_prop("p2", "claim", "high");
    p2.formal_expression = "growth → ¬success".to_string();
    let graph = make_graph(vec![p1, p2], vec![]);
    let result = detect_contradictions(&graph);
    assert!(result.len() >= 1, "Should detect logical implication conflict");
    assert!(
        result.iter().any(|c| c.contradiction_type == ContradictionKind::Logical),
        "Should be classified as logical"
    );
}

#[test]
fn test_multiple_contradictions() {
    let mut p1 = make_prop("p1", "claim", "high");
    p1.statement = "We should pivot now".to_string();
    let mut p2 = make_prop("p2", "constraint", "high");
    p2.statement = "Rebuild takes 18 months".to_string();
    let mut p3 = make_prop("p3", "claim", "high");
    p3.formal_expression = "X → Y".to_string();
    let mut p4 = make_prop("p4", "claim", "high");
    p4.formal_expression = "X → ¬Y".to_string();
    let graph = make_graph(vec![p1, p2, p3, p4], vec![make_rel("r1", "p2", "p1", "contradicts")]);
    let result = detect_contradictions(&graph);
    assert!(result.len() >= 2, "Should detect multiple contradictions, got {}", result.len());
}

#[test]
fn explicit_contradiction_is_critical_when_load_bearing() {
    let p1 = make_prop("p1", "claim", "high");
    let mut p2 = make_prop("p2", "constraint", "high");
    p2.is_load_bearing = true;
    let graph = make_graph(vec![p1, p2], vec![make_rel("r1", "p2", "p1", "contradicts")]);
    let result = detect_contradictions(&graph);
    assert_eq!(result.len(), 1);
    assert_eq!(result[0].severity, Severity::Critical);
    assert_eq!(result[0].id, "contradiction-explicit-1");
    assert_eq!(result[0].formal_proof, "p2 → true ∧ p1 → true → ⊥");
    assert_eq!(result[0].proposition_ids, ids(&["p2", "p1"]));
}

#[test]
fn explicit_contradiction_is_major_otherwise() {
    let a = make_prop("a", "evidence", "high");
    let b = make_prop("b", "evidence", "high");
    let graph = make_graph(vec![a, b], vec![make_rel("r1", "a", "b", "contradicts")]);
    let result = detect_contradictions(&graph);
    assert_eq!(result.len(), 1);
    assert_eq!(result[0].severity, Severity::Major);
}

#[test]
fn temporal_conflict_between_durations() {
    let mut a = make_prop("a", "constraint", "high");
    a.statement = "The rebuild takes > 2 years".to_string();
    a.formal_expression = "rebuild".to_string();
    let mut b = make_prop("b", "risk", "high");
    b.statement = "Runway lasts < 18 months".to_string();
    b.formal_expression = "runway".to_string();
    let graph = make_graph(vec![a, b], vec![]);
    let result = detect_contradictions(&graph);
    assert_eq!(result.len(), 1);
    assert_eq!(result[0].contradiction_type, ContradictionKind::Temporal);
    assert_eq!(result[0].severity, Severity::Major);
    assert_eq!(result[0].id, "contradiction-temporal-1");
    assert!(result[0].human_explanation.contains("more than 24 months"));
    assert!(result[0].human_explanation.contains("within 18 months"));
}

#[test]
fn temporal_conflict_urgency_against_long_timeline() {
    let mut a = make_prop("a", "claim", "high");
    a.statement = "Ship it immediately, this quarter".to_string();
    let mut b = make_prop("b", "constraint", "high");
    b.statement = "Hiring takes over a year".to_string();
    let graph = make_graph(vec![a, b], vec![]);
    let result = detect_contradictions(&graph);
    assert_eq!(result.len(), 1);
    assert_eq!(result[0].contradiction_type, ContradictionKind::Temporal);
    assert_eq!(result[0].severity, Severity::Critical);
}

#[test]
fn resource_contradiction_lists_numeric_neighbours() {
    let mut a = make_prop("A", "assumption", "medium");
    a.statement = "Savings are sufficient".to_string();
    a.formal_expression = "savings ≥ expenses".to_string();
    a.is_load_bearing = true;
    let mut s = make_prop("S", "evidence", "high");
    s.statement = "Savings are $80,000".to_string();
    s.formal_expression = "savings".to_string();
    let mut e = make_prop("E", "evidence", "high");
    e.statement = "Expenses are $8K".to_string();
    e.formal_expression = "expenses".to_string();
    let graph = make_graph(
        vec![a, s, e],
        vec![make_rel("r1", "S", "A", "supports"), make_rel("r2", "A", "E", "depends_on")],
    );
    let result = detect_contradictions(&graph);
    assert_eq!(result.len(), 1);
    assert_eq!(result[0].contradiction_type, ContradictionKind::Empirical);
    assert_eq!(result[0].severity, Severity::Critical);
    assert_eq!(result[0].proposition_ids, ids(&["A", "S", "E"]));
    assert_eq!(result[0].id, "contradiction-resource-1");
    assert_eq!(
        result[0].formal_proof,
        "savings ≥ expenses — requires verification against numeric constraints"
    );
    assert!(result[0].human_explanation.contains("(80000)"));
    assert!(result[0].human_explanation.contains("(8000)"));
}

#[test]
fn contradiction_ids_count_within_each_strategy() {
    let mut p1 = make_prop("p1", "claim", "high");
    p1.formal_expression = "X -> Y".to_string();
    let mut p2 = make_prop("p2", "claim", "high");
    p2.formal_expression = "X → ¬Y".to_string();
    let graph = make_graph(vec![p1, p2], vec![make_rel("r1", "p1", "p2", "contradicts")]);
    let result = detect_contradictions(&graph);
    let got: Vec<&str> = result.iter().map(|c| c.id.as_str()).collect();
    assert_eq!(got, vec!["contradiction-explicit-1", "contradiction-logical-1"]);
    assert_eq!(result[1].severity, Severity::Critical);
}

// ── text parsers ──

#[test]
fn test_extract_duration() {
    assert!(extract_duration(&chars_of("> 12 months")).is_some());
    assert!(extract_duration(&chars_of("takes > 6 months")).is_some());
    let (op, val) = months("> 12 months");
    assert_eq!(op, DurationOp::Greater);
    assert!((val - 12.0).abs() < 0.01);
}

#[test]
fn duration_units_and_operators() {
    assert_eq!(months("< 2 years"), (DurationOp::Less, 24.0));
    assert_eq!(months("about 6 weeks"), (DurationOp::Equal, 1.5));
    assert_eq!(months(">3.5 months"), (DurationOp::Greater, 3.5));
    assert_eq!(months("<= 4 months"), (DurationOp::Less, 4.0));
    assert!(extract_duration(&chars_of("no time here")).is_none());
    assert!(extract_duration(&chars_of("many months")).is_none());
}

#[test]
fn numeric_values_with_suffixes() {
    let a = extract_numeric_value("$80,000 saved").unwrap();
    assert_eq!((a.mantissa, a.scale, a.exponent), (80000, 0, 0));
    let b = extract_numeric_value("costs $8K monthly").unwrap();
    assert_eq!((b.mantissa, b.scale, b.exponent), (8, 0, 3));
    let c = extract_numeric_value("raise 1.5M").unwrap();
    assert_eq!((c.mantissa, c.scale, c.exponent), (15, 1, 6));
    assert!(extract_numeric_value("no digits").is_none());
}

#[test]
fn implications_split_on_first_arrow() {
    let (l, r) = parse_implication(&chars_of("  a ∧ b →  c ")).unwrap();
    assert_eq!(l.iter().collect::<String>(), "a ∧ b");
    assert_eq!(r.iter().collect::<String>(), "c");
    let (l2, r2) = parse_implication(&chars_of("x -> y")).unwrap();
    assert_eq!(l2.iter().collect::<String>(), "x");
    assert_eq!(r2.iter().collect::<String>(), "y");
    assert!(parse_implication(&chars_of("→ y")).is_none());
    assert!(parse_implication(&chars_of("plain")).is_none());
}

#[test]
fn variables_of_formal_expressions() {
    assert_eq!(extract_variables("deal_size(enterprise) > 5 * deal_size(smb)"), ids(&["enterprise", "smb"]));
    assert_eq!(extract_variables("growth → success"), ids(&["growth", "success"]));
    assert_eq!(extract_variables("Revenue(q) and x_y or z"), ids(&["x_y"]));
    assert_eq!(extract_variables("f(a, bb, cc)"), ids(&["bb", "cc"]));
    assert_eq!(extract_variables("market_size grows"), ids(&["grows", "market_size"]));
    assert_eq!(extract_variables("f(zz+bb) > g(h(x_1))"), ids(&["bb", "x_1", "zz"]));
}

// ── biases ──

#[test]
fn test_anchoring_effect() {
    let mut assumption = make_prop("A1", "assumption", "unstated_as_absolute");
    assumption.statement = "Larger deals = better outcome".to_string();
    assumption.is_anchored = true;
    assumption.is_load_bearing = true;
    let graph = make_graph(vec![assumption], vec![]);
    let biases = detect_biases(&graph, &vec![BiasSeverity::High]);
    assert!(biases.iter().any(|b| b.name == "Anchoring Effect"), "Should detect anchoring effect");
    let anchoring = biases.iter().find(|b| b.name == "Anchoring Effect").unwrap();
    assert!(anchoring.kahneman_reference.contains("Chapter 11"));
    assert_eq!(anchoring.system, 1);
    assert_eq!(anchoring.severity, BiasSeverity::High);
}

#[test]
fn test_confirmation_bias() {
    let graph = make_graph(
        vec![
            make_prop("C1", "claim", "high"),
            make_prop("E1", "evidence", "high"),
            make_prop("E2", "evidence", "high"),
        ],
        vec![make_rel("r1", "E1", "C1", "supports"), make_rel("r2", "E2", "C1", "supports")],
    );
    let bands = vec![BiasSeverity::Medium, BiasSeverity::Low, BiasSeverity::Low];
    let biases = detect_biases(&graph, &bands);
    assert!(biases.iter().any(|b| b.name == "Confirmation Bias"), "Should detect confirmation bias");
    let conf = biases.iter().find(|b| b.name == "Confirmation Bias").unwrap();
    assert!(conf.kahneman_reference.contains("Chapter 7"));
    assert_eq!(conf.affected_node_ids, ids(&["C1", "E1", "E2"]));
    assert_eq!(conf.severity, BiasSeverity::Medium);
}

#[test]
fn test_no_confirmation_bias_with_challenge() {
    let graph = make_graph(
        vec![
            make_prop("C1", "claim", "high"),
            make_prop("E1", "evidence", "high"),
            make_prop("E2", "evidence", "high"),
            make_prop("X1", "evidence", "high"),
        ],
        vec![
            make_rel("r1", "E1", "C1", "supports"),
            make_rel("r2", "E2", "C1", "supports"),
            make_rel("r3", "X1", "C1", "contradicts"),
        ],
    );
    let biases = detect_biases(&graph, &vec![]);
    assert!(
        !biases.iter().any(|b| b.name == "Confirmation Bias"),
        "Should NOT detect confirmation bias when counter-evidence exists"
    );
}

#[test]
fn test_availability_heuristic() {
    let mut evidence = make_prop("E1", "evidence", "high");
    evidence.statement = "Market timing feels right".to_string();
    evidence.formal_expression = "market_sentiment = positive".to_string();
    let graph = make_graph(vec![evidence], vec![]);
    let biases = detect_biases(&graph, &vec![BiasSeverity::Low]);
    assert!(
        biases.iter().any(|b| b.name == "Availability Heuristic"),
        "Should detect availability heuristic"
    );
}

#[test]
fn availability_matches_upper_case_text() {
    let mut evidence = make_prop("E1", "evidence", "medium");
    evidence.statement = "My GUT says yes".to_string();
    let graph = make_graph(vec![evidence], vec![]);
    let biases = detect_biases(&graph, &vec![]);
    assert_eq!(biases.len(), 1);
    assert_eq!(biases[0].name, "Availability Heuristic");
    assert!(biases[0].description.contains("\"gut\""));
}

#[test]
fn test_severity_scales_with_centrality() {
    let mut assumption = make_prop("A1", "assumption", "unstated_as_absolute");
    assumption.is_anchored = true;
    let graph = make_graph(vec![assumption], vec![]);
    let biases_low = detect_biases(&graph, &vec![BiasSeverity::Low]);
    let biases_high = detect_biases(&graph, &vec![BiasSeverity::High]);
    assert_eq!(biases_low[0].severity, BiasSeverity::Low);
    assert_eq!(biases_high[0].severity, BiasSeverity::High);
}

#[test]
fn planning_fallacy_and_attribute_substitution() {
    let mut claim = make_prop("C1", "claim", "high");
    claim.formal_expression = "outcome_quality(pivot)".to_string();
    let mut ev = make_prop("E1", "evidence", "low");
    ev.formal_expression = "deal_size(enterprise) > 5".to_string();
    let graph = make_graph(vec![claim, ev], vec![make_rel("r1", "E1", "C1", "supports")]);
    let biases = detect_biases(&graph, &vec![]);
    let names: Vec<&str> = biases.iter().map(|b| b.name.as_str()).collect();
    assert_eq!(names, vec!["Planning Fallacy", "Attribute Substitution"]);
    assert_eq!(biases[0].id, "bias-planning-1");
    assert_eq!(biases[1].id, "bias-substitution-2");
    assert_eq!(biases[1].affected_node_ids, ids(&["C1", "E1"]));
    assert!(biases.iter().all(|b| b.system == 1));
}

#[test]
fn planning_fallacy_suppressed_by_constraint() {
    let claim = make_prop("C1", "claim", "high");
    let risk = make_prop("R1", "risk", "high");
    let graph = make_graph(vec![claim, risk], vec![make_rel("r1", "R1", "C1", "attacks")]);
    let biases = detect_biases(&graph, &vec![]);
    assert!(!biases.iter().any(|b| b.name == "Planning Fallacy"));
}

// ── argument score counts ──

#[test]
fn well_supported_claim_counts() {
    let graph = make_graph(
        vec![
            make_prop("C1", "claim", "high"),
            make_prop("E1", "evidence", "high"),
            make_prop("E2", "evidence", "high"),
            make_prop("E3", "evidence", "high"),
        ],
        vec![
            make_rel("r1", "E1", "C1", "supports"),
            make_rel("r2", "E2", "C1", "supports"),
            make_rel("r3", "E3", "C1", "supports"),
        ],
    );
    let counts = argument_counts(&graph, &vec![]);
    assert_eq!(counts[0].proposition_id, "C1");
    assert_eq!(counts[0].evidence_paths, 3);
    assert_eq!(counts[0].contradiction_count, 0);
}

#[test]
fn contradicted_claim_counts() {
    let graph = make_graph(
        vec![make_prop("C1", "claim", "high"), make_prop("E1", "evidence", "high")],
        vec![make_rel("r1", "E1", "C1", "supports")],
    );
    let contradiction = Contradiction {
        id: "c1".to_string(),
        proposition_ids: vec!["C1".to_string()],
        contradiction_type: ContradictionKind::Logical,
        severity: Severity::Critical,
        formal_proof: "test".to_string(),
        human_explanation: "test".to_string(),
    };
    let counts = argument_counts(&graph, &vec![contradiction]);
    assert_eq!(counts[0].contradiction_count, 1);
    assert_eq!(counts[1].contradiction_count, 0);
}

#[test]
fn vulnerable_assumption_counts() {
    let mut claim = make_prop("C1", "claim", "high");
    claim.is_load_bearing = true;
    let mut assumption = make_prop("A1", "assumption", "unstated_as_absolute");
    assumption.is_load_bearing = true;
    let graph = make_graph(vec![claim, assumption], vec![make_rel("r1", "C1", "A1", "depends_on")]);
    assert_eq!(count_vulnerable_assumptions(&graph, &"C1".to_string()), 1);
    let counts = argument_counts(&graph, &vec![]);
    assert_eq!(counts[0].vulnerable_assumptions, 1);
    assert_eq!(counts[0].evidence_paths, 0);
}

#[test]
fn every_proposition_gets_counts_in_input_order() {
    let graph = make_graph(
        vec![
            make_prop("A", "claim", "high"),
            make_prop("B", "evidence", "high"),
            make_prop("C", "assumption", "medium"),
        ],
        vec![],
    );
    let counts = argument_counts(&graph, &vec![]);
    let got: Vec<&str> = counts.iter().map(|c| c.proposition_id.as_str()).collect();
    assert_eq!(got, vec!["A", "B", "C"]);
}

#[test]
fn founder_pivot_scenario() {
    let mut p1 = make_prop("fp-p1", "claim", "high");
    p1.statement = "We should pivot to Enterprise".to_string();
    p1.formal_expression = "pivot_enterprise → optimal_outcome".to_string();
    let mut p2 = make_prop("fp-p2", "evidence", "high");
    p2.statement = "Enterprise deal sizes are 5x larger".to_string();
    p2.formal_expression = "deal_size(enterprise) > 5 * deal_size(smb)".to_string();
    let mut p3 = make_prop("fp-p3", "evidence", "medium");
    p3.statement = "Current SMB growth is stalling".to_string();
    p3.formal_expression = "growth_rate(smb) <= 0.03".to_string();
    let mut p4 = make_prop("fp-p4", "assumption", "unstated_as_absolute");
    p4.statement = "Larger deals necessarily lead to better outcomes".to_string();
    p4.formal_expression = "deal_size(x) > deal_size(y) → outcome(x) > outcome(y)".to_string();
    p4.is_implicit = true;
    p4.is_load_bearing = true;
    p4.is_anchored = true;
    let mut p5 = make_prop("fp-p5", "constraint", "high");
    p5.statement = "Product rebuild would take >12 months".to_string();
    p5.formal_expression = "time(rebuild_enterprise) > 12_months".to_string();
    let graph = make_graph(
        vec![p1, p2, p3, p4, p5],
        vec![
            make_rel("r1", "fp-p2", "fp-p1", "supports"),
            make_rel("r2", "fp-p3", "fp-p1", "supports"),
            make_rel("r3", "fp-p1", "fp-p4", "depends_on"),
            make_rel("r4", "fp-p5", "fp-p1", "contradicts"),
        ],
    );
    let contradictions = detect_contradictions(&graph);
    assert!(contradictions.iter().any(|c| c.severity == Severity::Critical
        && c.proposition_ids.contains(&"fp-p1".to_string())
        && c.proposition_ids.contains(&"fp-p5".to_string())));
    let biases = detect_biases(&graph, &vec![]);
    assert!(biases
        .iter()
        .any(|b| b.name == "Anchoring Effect" && b.affected_node_ids == ids(&["fp-p4"])));
    let counts = argument_counts(&graph, &contradictions);
    assert_eq!(counts.len(), 5);
    assert_eq!(counts[0].evidence_paths, 2);
    assert!(counts[0].contradiction_count >= 1);
    assert_eq!(counts[0].vulnerable_assumptions, 1);
}

// ── graph queries ──

#[test]
fn dependency_edges_and_adjacency() {
    assert!(is_dependency_edge(RelationshipKind::Supports));
    assert!(is_dependency_edge(RelationshipKind::DependsOn));
    assert!(is_dependency_edge(RelationshipKind::Assumes));
    assert!(!is_dependency_edge(RelationshipKind::Contradicts));
    assert!(!is_dependency_edge(RelationshipKind::Attacks));
    let graph = make_graph(
        vec![make_prop("A", "claim", "high"), make_prop("B", "evidence", "high")],
        vec![
            make_rel("r1", "A", "B", "supports"),
            make_rel("r2", "A", "B", "attacks"),
            make_rel("r3", "B", "Q", "supports"),
        ],
    );
    assert_eq!(graph.get_dependency_adjacency(), vec![vec![1usize], vec![]]);
    assert_eq!(graph.get_adjacency_list(), vec![vec![1usize, 1], vec![]]);
    assert_eq!(graph.get_relationships_from(&"A".to_string()).len(), 2);
    assert_eq!(graph.get_relationships_to(&"B".to_string()).len(), 2);
    assert_eq!(graph.get_proposition(&"B".to_string()).unwrap().id, "B");
    assert!(graph.get_proposition(&"Q".to_string()).is_none());
    assert_eq!(graph.get_propositions_by_type(PropositionKind::Evidence).len(), 1);
}

// ── shortest paths ──

#[test]
fn shortest_paths_from_a_source() {
    // A→B, A→C, B→D, C→D, D→E
    let adj: Vec<Vec<usize>> = vec![vec![1, 2], vec![3], vec![3], vec![4], vec![]];
    let sp = shortest_path_dag(&adj, 0);
    assert_eq!(sp.order, vec![0, 1, 2, 3, 4]);
    assert_eq!(sp.dist, vec![Some(0), Some(1), Some(1), Some(2), Some(3)]);
    assert_eq!(sp.preds[3], vec![1, 2]);
    assert_eq!(sp.preds[4], vec![3]);
    let from_d = shortest_path_dag(&adj, 3);
    assert_eq!(from_d.order, vec![3, 4]);
    assert_eq!(from_d.dist[0], None);
}

#[test]
fn reported_identifiers_name_propositions() {
    let mut claim = make_prop("C", "claim", "high");
    claim.formal_expression = "a_b → c_d".to_string();
    let mut other = make_prop("D", "claim", "high");
    other.formal_expression = "a_b → ¬c_d".to_string();
    let graph = make_graph(
        vec![claim, other, make_prop("E", "evidence", "high"), make_prop("F", "assumption", "unstated_as_absolute")],
        vec![
            make_rel("r1", "E", "C", "supports"),
            make_rel("r2", "C", "E", "depends_on"),
            make_rel("r3", "F", "D", "contradicts"),
        ],
    );
    let present: Vec<String> = graph.propositions.iter().map(|p| p.id.clone()).collect();
    let cycles = detect_cycles(&graph);
    assert_eq!(cycles, vec![ids(&["C", "E"])]);
    let mut seen: Vec<String> = Vec::new();
    for c in &cycles {
        seen.extend(c.iter().cloned());
    }
    for c in detect_contradictions(&graph) {
        seen.extend(c.proposition_ids);
    }
    for f in detect_fallacies(&graph, &cycles) {
        seen.extend(f.affected_node_ids);
    }
    for b in detect_biases(&graph, &vec![]) {
        seen.extend(b.affected_node_ids);
    }
    assert!(!seen.is_empty());
    assert!(seen.iter().all(|id| present.contains(id)));
}

#[test]
fn topological_order_respects_every_dependency_edge() {
    let graph = make_graph(
        vec![
            make_prop("e", "claim", "high"),
            make_prop("a", "evidence", "high"),
            make_prop("c", "evidence", "high"),
            make_prop("b", "evidence", "high"),
            make_prop("x", "claim", "high"),
            make_prop("y", "claim", "high"),
        ],
        vec![
            make_rel("r1", "a", "b", "supports"),
            make_rel("r2", "b", "e", "depends_on"),
            make_rel("r3", "c", "e", "assumes"),
            make_rel("r4", "a", "c", "supports"),
            make_rel("r5", "x", "y", "supports"),
            make_rel("r6", "y", "x", "supports"),
            make_rel("r7", "e", "a", "attacks"),
        ],
    );
    let order = topological_sort(&graph);
    assert_eq!(order, ids(&["a", "b", "c", "e"]));
    for r in &graph.relationships {
        if is_dependency_edge(r.rel_type) {
            let u = order.iter().position(|x| *x == r.from_id);
            let v = order.iter().position(|x| *x == r.to_id);
            if let (Some(u), Some(v)) = (u, v) {
                assert!(u < v);
            }
        }
    }
}
