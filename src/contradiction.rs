use vstd::prelude::*;

use crate::cycle_detection::id_seq;
use crate::parse::{
    detect_logical_conflict,
    duration_of,
    extract_duration,
    extract_numeric_value,
    implications_conflict,
    numeric_value,
    pow10,
    Duration,
    DurationOp,
};
use crate::text::{
    contains_chars,
    contains_seq,
    decimal_text,
    nat_text,
    numbered_text,
    fold_all,
    folds,
    lower_of,
    FoldedText,
};
use crate::types::{
    Contradiction,
    ContradictionKind,
    LogicalGraph,
    Proposition,
    PropositionKind,
    Relationship,
    RelationshipKind,
    Severity,
    lookup,
};

verus! {

/// What a contradiction record states: the propositions involved, its kind, its severity
/// and its formal proof.
pub type ContradictionCore = (Seq<Seq<char>>, ContradictionKind, Severity, Seq<char>);

/// The formal proof of a contradiction between two expressions: `a ∧ b → ⊥`, or with
/// `ending` in place of `⊥`.
pub open spec fn conjunction_proof(a: Seq<char>, b: Seq<char>, ending: Seq<char>) -> Seq<char> {
    a + " ∧ "@ + b + ending
}

/// Records from position `lo` on carry the identifiers `prefix` followed by 1, 2, 3, ...
pub open spec fn numbered(out: Seq<Contradiction>, lo: int, hi: int, prefix: Seq<char>) -> bool {
    forall|k: int| lo <= k < hi && k < out.len() ==> (#[trigger] out[k]).id@ == prefix + nat_text((k - lo + 1) as nat)
}

/// `b` keeps every record of `a` and may add more after them.
pub open spec fn keeps(a: Seq<Contradiction>, b: Seq<Contradiction>) -> bool {
    a.len() <= b.len() && forall|k: int| 0 <= k < a.len() ==> #[trigger] b[k] == a[k]
}

/// The statement of a contradiction record.
pub open spec fn core_of(c: Contradiction) -> ContradictionCore {
    (id_seq(c.proposition_ids@), c.contradiction_type, c.severity, c.formal_proof@)
}

/// The statements of a list of contradiction records.
pub open spec fn cores_of(cs: Seq<Contradiction>) -> Seq<ContradictionCore> {
    cs.map_values(|c: Contradiction| core_of(c))
}

/// `Critical` when either flag is set.
pub open spec fn severity_any(a: bool, b: bool) -> Severity {
    if a || b {
        Severity::Critical
    } else {
        Severity::Major
    }
}

/// `Critical` when both flags are set.
pub open spec fn severity_both(a: bool, b: bool) -> Severity {
    if a && b {
        Severity::Critical
    } else {
        Severity::Major
    }
}

/// Records of the explicit strategy among the first `k` relationships: one per `contradicts`
/// edge whose endpoints both name propositions.
pub open spec fn explicit_cores(g: LogicalGraph, k: int) -> Seq<ContradictionCore>
    decreases k,
{
    if k <= 0 || k > g.relationships@.len() {
        Seq::empty()
    } else {
        let prev = explicit_cores(g, k - 1);
        let r = g.relationships@[k - 1];
        let props = g.propositions@;
        if r.rel_type == RelationshipKind::Contradicts && lookup(props, r.from_id@) is Some && lookup(
            props,
            r.to_id@,
        ) is Some {
            prev.push(
                (
                    seq![r.from_id@, r.to_id@],
                    ContradictionKind::Logical,
                    severity_any(
                        props[lookup(props, r.from_id@).unwrap()].is_load_bearing,
                        props[lookup(props, r.to_id@).unwrap()].is_load_bearing,
                    ),
                    conjunction_proof(
                        props[lookup(props, r.from_id@).unwrap()].formal_expression@,
                        props[lookup(props, r.to_id@).unwrap()].formal_expression@,
                        " → ⊥"@,
                    ),
                ),
            )
        } else {
            prev
        }
    }
}

/// Records found by `f` for the pairs `(s[i], s[j])` with `i < j < k`.
pub open spec fn pair_row(
    s: Seq<Proposition>,
    i: int,
    k: int,
    f: spec_fn(Proposition, Proposition) -> Seq<ContradictionCore>,
) -> Seq<ContradictionCore>
    decreases k,
{
    if i < 0 || k <= i + 1 || k > s.len() {
        Seq::empty()
    } else {
        pair_row(s, i, k - 1, f) + f(s[i], s[k - 1])
    }
}

/// Records found by `f` for all pairs `(s[i], s[j])` with `i < j` and `i < k`, row by row.
pub open spec fn pairs_upto(
    s: Seq<Proposition>,
    k: int,
    f: spec_fn(Proposition, Proposition) -> Seq<ContradictionCore>,
) -> Seq<ContradictionCore>
    decreases k,
{
    if k <= 0 || k > s.len() {
        Seq::empty()
    } else {
        pairs_upto(s, k - 1, f) + pair_row(s, k - 1, s.len() as int, f)
    }
}


fn quoted(s: &String) -> String {
    String::from_str("\"").concat(s.as_str()).concat("\"")
}

/// Appends one record per `contradicts` edge whose endpoints both name propositions.
fn detect_explicit(graph: &LogicalGraph, out: &mut Vec<Contradiction>)
    ensures
        keeps(old(out)@, final(out)@),
        numbered(final(out)@, old(out)@.len() as int, final(out)@.len() as int, "contradiction-explicit-"@),
        cores_of(final(out)@) == cores_of(old(out)@) + explicit_cores(
            *graph,
            graph.relationships@.len() as int,
        ),
{
    let start = out.len();
    let mut k: usize = 0;
    while k < graph.relationships.len()
        invariant
            keeps(old(out)@, out@),
            start == old(out)@.len(),
            numbered(out@, start as int, out@.len() as int, "contradiction-explicit-"@),
            k <= graph.relationships@.len(),
            start <= out@.len(),
            cores_of(out@) == cores_of(old(out)@) + explicit_cores(*graph, k as int),
        decreases graph.relationships.len() - k,
    {
        let rel = &graph.relationships[k];
        if rel.rel_type == RelationshipKind::Contradicts {
            match (graph.get_proposition(&rel.from_id), graph.get_proposition(&rel.to_id)) {
                (Some(a), Some(b)) => {
                    let severity = if a.is_load_bearing || b.is_load_bearing {
                        Severity::Critical
                    } else {
                        Severity::Major
                    };
                    let mut ids: Vec<String> = Vec::new();
                    ids.push(rel.from_id.clone());
                    ids.push(rel.to_id.clone());
                    let proof_text = a.formal_expression.clone().concat(" ∧ ").concat(
                        b.formal_expression.as_str(),
                    ).concat(" → ⊥");
                    let explanation = quoted(&a.statement).concat(" directly contradicts ").concat(
                        quoted(&b.statement).as_str(),
                    ).concat(". These two propositions cannot both be true simultaneously.");
                    let c = Contradiction {
                        id: numbered_text("contradiction-explicit-", (out.len() - start) as u128 + 1),
                        proposition_ids: ids,
                        contradiction_type: ContradictionKind::Logical,
                        severity,
                        formal_proof: proof_text,
                        human_explanation: explanation,
                    };
                    let ghost before = out@;
                    out.push(c);
                    proof {
                        assert(id_seq(c.proposition_ids@) =~= seq![rel.from_id@, rel.to_id@]);
                        assert(cores_of(out@) =~= cores_of(before).push(core_of(c)));
                    }
                },
                _ => {},
            }
        }
        k = k + 1;
    }
}

} // verus!

verus! {

/// The record of the logical-implication strategy for a pair, if its expressions conflict.
pub open spec fn logical_core(a: Proposition, b: Proposition) -> Seq<ContradictionCore> {
    if implications_conflict(a.formal_expression@, b.formal_expression@) {
        seq![
            (
                seq![a.id@, b.id@],
                ContradictionKind::Logical,
                severity_both(a.is_load_bearing, b.is_load_bearing),
                conjunction_proof(a.formal_expression@, b.formal_expression@, " → ⊥"@),
            ),
        ]
    } else {
        Seq::empty()
    }
}

/// Records of the logical-implication strategy: every pair of propositions, in input order,
/// whose formal expressions are implications from one antecedent to negated consequents.
pub open spec fn logical_cores(g: LogicalGraph) -> Seq<ContradictionCore> {
    pairs_upto(
        g.propositions@,
        g.propositions@.len() as int,
        |a: Proposition, b: Proposition| logical_core(a, b),
    )
}

proof fn lemma_pairs_step(
    s: Seq<Proposition>,
    i: int,
    f: spec_fn(Proposition, Proposition) -> Seq<ContradictionCore>,
)
    requires
        0 <= i < s.len(),
    ensures
        pairs_upto(s, i + 1, f) == pairs_upto(s, i, f) + pair_row(s, i, s.len() as int, f),
{
}

proof fn lemma_row_step(
    s: Seq<Proposition>,
    i: int,
    j: int,
    f: spec_fn(Proposition, Proposition) -> Seq<ContradictionCore>,
)
    requires
        0 <= i < j < s.len(),
    ensures
        pair_row(s, i, j + 1, f) == pair_row(s, i, j, f) + f(s[i], s[j]),
{
}

proof fn lemma_row_start(
    s: Seq<Proposition>,
    i: int,
    f: spec_fn(Proposition, Proposition) -> Seq<ContradictionCore>,
)
    requires
        0 <= i < s.len(),
    ensures
        pair_row(s, i, i + 1, f) == Seq::<ContradictionCore>::empty(),
{
}

/// Appends the records of the logical-implication strategy.
fn detect_logical(graph: &LogicalGraph, exprs: &Vec<Vec<char>>, out: &mut Vec<Contradiction>)
    requires
        exprs@.len() == graph.propositions@.len(),
        forall|i: int| 0 <= i < exprs@.len() ==> (#[trigger] exprs@[i])@ == graph.propositions@[i].formal_expression@,
    ensures
        keeps(old(out)@, final(out)@),
        numbered(final(out)@, old(out)@.len() as int, final(out)@.len() as int, "contradiction-logical-"@),
        cores_of(final(out)@) == cores_of(old(out)@) + logical_cores(*graph),
{
    let ghost f = |a: Proposition, b: Proposition| logical_core(a, b);
    let ghost s = graph.propositions@;
    let n = graph.propositions.len();
    let start = out.len();
    let mut i: usize = 0;
    while i < n
        invariant
            keeps(old(out)@, out@),
            start == old(out)@.len(),
            numbered(out@, start as int, out@.len() as int, "contradiction-logical-"@),
            f == (|a: Proposition, b: Proposition| logical_core(a, b)),
            s == graph.propositions@,
            n == s.len(),
            exprs@.len() == n,
            forall|q: int| 0 <= q < exprs@.len() ==> (#[trigger] exprs@[q])@ == s[q].formal_expression@,
            i <= n,
            start <= out@.len(),
            cores_of(out@) == cores_of(old(out)@) + pairs_upto(s, i as int, f),
        decreases n - i,
    {
        let ghost row_base = cores_of(out@);
        proof {
            lemma_row_start(s, i as int, f);
            assert(row_base + pair_row(s, i as int, i + 1, f) =~= row_base);
        }
        let mut j: usize = i + 1;
        while j < n
            invariant
                keeps(old(out)@, out@),
                start == old(out)@.len(),
                numbered(out@, start as int, out@.len() as int, "contradiction-logical-"@),
            keeps(old(out)@, out@),
            start == old(out)@.len(),
            numbered(out@, start as int, out@.len() as int, "contradiction-logical-"@),
                f == (|a: Proposition, b: Proposition| logical_core(a, b)),
                s == graph.propositions@,
                n == s.len(),
                exprs@.len() == n,
                forall|q: int| 0 <= q < exprs@.len() ==> (#[trigger] exprs@[q])@ == s[q].formal_expression@,
                i < j <= n,
                start <= out@.len(),
                row_base == cores_of(old(out)@) + pairs_upto(s, i as int, f),
                cores_of(out@) == row_base + pair_row(s, i as int, j as int, f),
            decreases n - j,
        {
            let a = &graph.propositions[i];
            let b = &graph.propositions[j];
            proof {
                lemma_row_step(s, i as int, j as int, f);
            }
            let ghost before = out@;
            if detect_logical_conflict(&exprs[i], &exprs[j]) {
                let severity = if a.is_load_bearing && b.is_load_bearing {
                    Severity::Critical
                } else {
                    Severity::Major
                };
                let mut ids: Vec<String> = Vec::new();
                ids.push(a.id.clone());
                ids.push(b.id.clone());
                let proof_text = a.formal_expression.clone().concat(" ∧ ").concat(
                    b.formal_expression.as_str(),
                ).concat(" → ⊥");
                let explanation = logical_explanation(a, b, &exprs[i], &exprs[j]);
                let c = Contradiction {
                    id: numbered_text("contradiction-logical-", (out.len() - start) as u128 + 1),
                    proposition_ids: ids,
                    contradiction_type: ContradictionKind::Logical,
                    severity,
                    formal_proof: proof_text,
                    human_explanation: explanation,
                };
                out.push(c);
                proof {
                    assert(id_seq(c.proposition_ids@) =~= seq![a.id@, b.id@]);
                    assert(cores_of(out@) =~= cores_of(before).push(core_of(c)));
                    assert(f(s[i as int], s[j as int]) == seq![core_of(c)]);
                    assert(cores_of(out@) =~= row_base + pair_row(s, i as int, j + 1, f));
                }
            } else {
                proof {
                    assert(f(s[i as int], s[j as int]) == Seq::<ContradictionCore>::empty());
                    assert(cores_of(out@) =~= row_base + pair_row(s, i as int, j + 1, f));
                }
            }
            j = j + 1;
        }
        proof {
            lemma_pairs_step(s, i as int, f);
            assert(cores_of(out@) =~= cores_of(old(out)@) + pairs_upto(s, i + 1, f));
        }
        i = i + 1;
    }
}

} // verus!

verus! {

/// `s` mentions a unit or notion of time.
pub open spec fn has_time_word(s: Seq<char>) -> bool {
    contains_seq(s, "month"@) || contains_seq(s, "year"@) || contains_seq(s, "week"@)
        || contains_seq(s, "day"@) || contains_seq(s, "quarter"@) || contains_seq(s, "time"@)
        || contains_seq(s, "duration"@) || contains_seq(s, "deadline"@) || contains_seq(
        s,
        "runway"@,
    ) || contains_seq(s, "period"@)
}

/// A proposition whose lower-case expression or statement mentions time.
pub open spec fn is_time_related(p: Proposition) -> bool {
    has_time_word(lower_of(p.formal_expression@)) || has_time_word(lower_of(p.statement@))
}

/// The duration a proposition states: from its lower-case expression, else its statement.
pub open spec fn duration_for(p: Proposition) -> Option<(DurationOp, nat, nat, nat)> {
    match duration_of(lower_of(p.formal_expression@)) {
        Some(d) => Some(d),
        None => duration_of(lower_of(p.statement@)),
    }
}

/// Duration `x` is strictly longer than `y`; each is `mantissa / 10^scale` units of
/// `quarters` quarter-months.
pub open spec fn longer(x: (DurationOp, nat, nat, nat), y: (DurationOp, nat, nat, nat)) -> bool {
    x.1 * x.3 * pow10(y.2) > y.1 * y.3 * pow10(x.2)
}

/// One proposition states more than some duration, the other less than a shorter one.
pub open spec fn durations_conflict(a: Proposition, b: Proposition) -> bool {
    match (duration_for(a), duration_for(b)) {
        (Some(x), Some(y)) => (x.0 == DurationOp::Greater && y.0 == DurationOp::Less && longer(x, y))
            || (y.0 == DurationOp::Greater && x.0 == DurationOp::Less && longer(y, x)),
        _ => false,
    }
}

/// The lower-case statement calls for prompt action.
pub open spec fn is_urgent(p: Proposition) -> bool {
    let s = lower_of(p.statement@);
    contains_seq(s, "now"@) || contains_seq(s, "immediately"@) || contains_seq(s, "should"@)
}

/// The lower-case statement speaks of more than a year.
pub open spec fn is_lengthy(p: Proposition) -> bool {
    let s = lower_of(p.statement@);
    contains_seq(s, ">12"@) || contains_seq(s, "over a year"@) || contains_seq(s, "> 12"@)
}

/// Two time-related propositions whose time constraints cannot both hold.
pub open spec fn temporal_conflict(a: Proposition, b: Proposition) -> bool {
    durations_conflict(a, b) || (is_urgent(a) && is_lengthy(b)) || (is_urgent(b) && is_lengthy(a))
}

/// The record of the temporal strategy for a pair, if their time constraints conflict.
pub open spec fn temporal_core(a: Proposition, b: Proposition) -> Seq<ContradictionCore> {
    if temporal_conflict(a, b) {
        seq![
            (
                seq![a.id@, b.id@],
                ContradictionKind::Temporal,
                severity_any(a.is_load_bearing, b.is_load_bearing),
                conjunction_proof(a.formal_expression@, b.formal_expression@, " → temporal_conflict"@),
            ),
        ]
    } else {
        Seq::empty()
    }
}

/// The time-related propositions, in input order.
pub open spec fn time_props(g: LogicalGraph) -> Seq<Proposition> {
    g.propositions@.filter(|p: Proposition| is_time_related(p))
}

/// Records of the temporal strategy: every pair of time-related propositions, in input order,
/// whose time constraints conflict.
pub open spec fn temporal_cores(g: LogicalGraph) -> Seq<ContradictionCore> {
    pairs_upto(
        time_props(g),
        time_props(g).len() as int,
        |a: Proposition, b: Proposition| temporal_core(a, b),
    )
}

fn has_time_word_exec(s: &Vec<char>) -> (r: bool)
    ensures
        r == has_time_word(s@),
{
    contains_chars(s, "month") || contains_chars(s, "year") || contains_chars(s, "week")
        || contains_chars(s, "day") || contains_chars(s, "quarter") || contains_chars(s, "time")
        || contains_chars(s, "duration") || contains_chars(s, "deadline") || contains_chars(
        s,
        "runway",
    ) || contains_chars(s, "period")
}

fn pow10_u128(e: u64) -> (r: u128)
    requires
        e <= 18,
    ensures
        r as nat == pow10(e as nat),
        r <= 1_000_000_000_000_000_000u128,
{
    let mut r: u128 = 1;
    let mut k: u64 = 0;
    while k < e
        invariant
            k <= e <= 18,
            r as nat == pow10(k as nat),
            r <= 1_000_000_000_000_000_000u128,
        decreases e - k,
    {
        proof {
            crate::parse::lemma_pow10_mono(k as nat, 17);
            crate::parse::lemma_pow10_18();
        }
        r = r * 10;
        k = k + 1;
    }
    r
}

/// The value of a duration.
pub open spec fn duration_value(d: Duration) -> (DurationOp, nat, nat, nat) {
    (d.op, d.mantissa as nat, d.scale as nat, d.quarters as nat)
}

/// Whether duration `x` is strictly longer than `y`.
fn is_longer(x: &Duration, y: &Duration) -> (r: bool)
    requires
        x.mantissa < 1_000_000_000_000_000_000u64,
        y.mantissa < 1_000_000_000_000_000_000u64,
        x.scale <= 18,
        y.scale <= 18,
        x.quarters <= 48,
        y.quarters <= 48,
    ensures
        r == longer(
            (x.op, x.mantissa as nat, x.scale as nat, x.quarters as nat),
            (y.op, y.mantissa as nat, y.scale as nat, y.quarters as nat),
        ),
{
    let px = pow10_u128(x.scale);
    let py = pow10_u128(y.scale);
    let xm = x.mantissa as u128;
    let ym = y.mantissa as u128;
    let xq = x.quarters as u128;
    let yq = y.quarters as u128;
    assert(xm * xq <= 48_000_000_000_000_000_000u128) by (nonlinear_arith)
        requires
            xm < 1_000_000_000_000_000_000u128,
            xq <= 48,
    ;
    assert(ym * yq <= 48_000_000_000_000_000_000u128) by (nonlinear_arith)
        requires
            ym < 1_000_000_000_000_000_000u128,
            yq <= 48,
    ;
    assert((xm * xq) * py <= 48_000_000_000_000_000_000_000_000_000_000_000_000u128) by (nonlinear_arith)
        requires
            xm * xq <= 48_000_000_000_000_000_000u128,
            py <= 1_000_000_000_000_000_000u128,
    ;
    assert((ym * yq) * px <= 48_000_000_000_000_000_000_000_000_000_000_000_000u128) by (nonlinear_arith)
        requires
            ym * yq <= 48_000_000_000_000_000_000u128,
            px <= 1_000_000_000_000_000_000u128,
    ;
    xm * xq * py > ym * yq * px
}

} // verus!

verus! {

fn months_text(d: &Duration) -> String
    requires
        d.mantissa < 1_000_000_000_000_000_000u64,
        d.scale <= 18,
        d.quarters <= 48,
{
    let m = d.mantissa as u128;
    let q = d.quarters as u128;
    assert(m * q * 25 <= 1_200_000_000_000_000_000_000u128) by (nonlinear_arith)
        requires
            m < 1_000_000_000_000_000_000u128,
            q <= 48,
    ;
    decimal_text(m * q * 25, d.scale as usize + 2)
}

/// The duration a proposition states, from its lower-case expression, else its statement.
fn duration_of_texts(f: &FoldedText) -> (r: Option<Duration>)
    ensures
        match r {
            Some(d) => (match duration_of(f.expression@) {
                Some(x) => Some(x),
                None => duration_of(f.statement@),
            }) == Some(duration_value(d)) && d.mantissa < 1_000_000_000_000_000_000u64 && d.scale <= 18
                && d.quarters <= 48,
            None => duration_of(f.expression@) is None && duration_of(f.statement@) is None,
        },
{
    match extract_duration(&f.expression) {
        Some(d) => Some(d),
        None => extract_duration(&f.statement),
    }
}

/// An explanation when the time constraints of `a` and `b` conflict.
pub fn detect_temporal_conflict(a: &Proposition, b: &Proposition, fa: &FoldedText, fb: &FoldedText) -> (r:
    Option<String>)
    requires
        fa.statement@ == lower_of(a.statement@),
        fa.expression@ == lower_of(a.formal_expression@),
        fb.statement@ == lower_of(b.statement@),
        fb.expression@ == lower_of(b.formal_expression@),
    ensures
        r is Some <==> temporal_conflict(*a, *b),
{
    let da = duration_of_texts(fa);
    let db = duration_of_texts(fb);
    match (da, db) {
        (Some(x), Some(y)) => {
            let (long_p, long_d, short_p, short_d) = if x.op == DurationOp::Greater && y.op
                == DurationOp::Less && is_longer(&x, &y) {
                (a, x, b, y)
            } else if y.op == DurationOp::Greater && x.op == DurationOp::Less && is_longer(&y, &x) {
                (b, y, a, x)
            } else {
                (a, x, a, x)
            };
            if x.op == DurationOp::Greater && y.op == DurationOp::Less && is_longer(&x, &y) || y.op
                == DurationOp::Greater && x.op == DurationOp::Less && is_longer(&y, &x) {
                let text = String::from_str("Temporal conflict: ").concat(
                    quoted(&long_p.statement).as_str(),
                ).concat(" implies a duration of more than ").concat(months_text(&long_d).as_str()).concat(
                    " months, but ",
                ).concat(quoted(&short_p.statement).as_str()).concat(
                    " requires completion within ",
                ).concat(months_text(&short_d).as_str()).concat(
                    " months. These time constraints are incompatible.",
                );
                return Some(text);
            }
        },
        _ => {},
    }
    let au = contains_chars(&fa.statement, "now") || contains_chars(&fa.statement, "immediately")
        || contains_chars(&fa.statement, "should");
    let bu = contains_chars(&fb.statement, "now") || contains_chars(&fb.statement, "immediately")
        || contains_chars(&fb.statement, "should");
    let al = contains_chars(&fa.statement, ">12") || contains_chars(&fa.statement, "over a year")
        || contains_chars(&fa.statement, "> 12");
    let bl = contains_chars(&fb.statement, ">12") || contains_chars(&fb.statement, "over a year")
        || contains_chars(&fb.statement, "> 12");
    if (au && bl) || (bu && al) {
        let (urgent, lengthy) = if au && bl {
            (a, b)
        } else {
            (b, a)
        };
        let text = String::from_str("Temporal conflict: ").concat(quoted(&urgent.statement).as_str()).concat(
            " implies urgency, but ",
        ).concat(quoted(&lengthy.statement).as_str()).concat(
            " indicates a lengthy timeline. The urgency and the required duration are incompatible.",
        );
        return Some(text);
    }
    None
}

/// Positions of the time-related propositions, in input order.
fn time_positions(graph: &LogicalGraph, folded: &Vec<FoldedText>) -> (r: Vec<usize>)
    requires
        folds(graph.propositions@, folded@),
    ensures
        r@.map_values(|x: usize| graph.propositions@[x as int]) == time_props(*graph),
        forall|k: int| 0 <= k < r@.len() ==> (r@[k] as int) < graph.propositions@.len(),
{
    let ghost s = graph.propositions@;
    let ghost pred = |p: Proposition| is_time_related(p);
    let mut r: Vec<usize> = Vec::new();
    let mut i: usize = 0;
    while i < graph.propositions.len()
        invariant
            s == graph.propositions@,
            pred == (|p: Proposition| is_time_related(p)),
            folds(s, folded@),
            i <= s.len(),
            r@.map_values(|x: usize| s[x as int]) == s.take(i as int).filter(pred),
            forall|k: int| 0 <= k < r@.len() ==> (r@[k] as int) < s.len(),
        decreases s.len() - i,
    {
        proof {
            crate::types::lemma_take_filter_step(s, i as int, pred);
        }
        let f = &folded[i];
        if has_time_word_exec(&f.expression) || has_time_word_exec(&f.statement) {
            let ghost before = r@;
            r.push(i);
            proof {
                assert(r@.map_values(|x: usize| s[x as int]) =~= before.map_values(
                    |x: usize| s[x as int],
                ).push(s[i as int]));
            }
        }
        i = i + 1;
    }
    proof {
        assert(s.take(i as int) =~= s);
    }
    r
}

/// Appends the records of the temporal strategy.
fn detect_temporal(graph: &LogicalGraph, folded: &Vec<FoldedText>, out: &mut Vec<Contradiction>)
    requires
        folds(graph.propositions@, folded@),
    ensures
        keeps(old(out)@, final(out)@),
        numbered(final(out)@, old(out)@.len() as int, final(out)@.len() as int, "contradiction-temporal-"@),
        cores_of(final(out)@) == cores_of(old(out)@) + temporal_cores(*graph),
{
    let ghost f = |a: Proposition, b: Proposition| temporal_core(a, b);
    let ghost s = time_props(*graph);
    let pos = time_positions(graph, folded);
    let n = pos.len();
    let start = out.len();
    let mut i: usize = 0;
    while i < n
        invariant
            keeps(old(out)@, out@),
            start == old(out)@.len(),
            numbered(out@, start as int, out@.len() as int, "contradiction-temporal-"@),
            f == (|a: Proposition, b: Proposition| temporal_core(a, b)),
            s == time_props(*graph),
            folds(graph.propositions@, folded@),
            pos@.map_values(|x: usize| graph.propositions@[x as int]) == s,
            forall|k: int| 0 <= k < pos@.len() ==> (pos@[k] as int) < graph.propositions@.len(),
            n == s.len(),
            i <= n,
            start <= out@.len(),
            cores_of(out@) == cores_of(old(out)@) + pairs_upto(s, i as int, f),
        decreases n - i,
    {
        let ghost row_base = cores_of(out@);
        proof {
            lemma_row_start(s, i as int, f);
            assert(row_base + pair_row(s, i as int, i + 1, f) =~= row_base);
        }
        let mut j: usize = i + 1;
        while j < n
            invariant
                keeps(old(out)@, out@),
                start == old(out)@.len(),
                numbered(out@, start as int, out@.len() as int, "contradiction-temporal-"@),
            keeps(old(out)@, out@),
            start == old(out)@.len(),
            numbered(out@, start as int, out@.len() as int, "contradiction-temporal-"@),
                f == (|a: Proposition, b: Proposition| temporal_core(a, b)),
                s == time_props(*graph),
                folds(graph.propositions@, folded@),
                pos@.map_values(|x: usize| graph.propositions@[x as int]) == s,
                forall|k: int| 0 <= k < pos@.len() ==> (pos@[k] as int) < graph.propositions@.len(),
                n == s.len(),
                i < j <= n,
                start <= out@.len(),
                row_base == cores_of(old(out)@) + pairs_upto(s, i as int, f),
                cores_of(out@) == row_base + pair_row(s, i as int, j as int, f),
            decreases n - j,
        {
            let pa = pos[i];
            let pb = pos[j];
            let a = &graph.propositions[pa];
            let b = &graph.propositions[pb];
            proof {
                lemma_row_step(s, i as int, j as int, f);
                assert(s[i as int] == *a);
                assert(s[j as int] == *b);
            }
            let ghost before = out@;
            match detect_temporal_conflict(a, b, &folded[pa], &folded[pb]) {
                Some(explanation) => {
                    let severity = if a.is_load_bearing || b.is_load_bearing {
                        Severity::Critical
                    } else {
                        Severity::Major
                    };
                    let mut ids: Vec<String> = Vec::new();
                    ids.push(a.id.clone());
                    ids.push(b.id.clone());
                    let proof_text = a.formal_expression.clone().concat(" ∧ ").concat(
                        b.formal_expression.as_str(),
                    ).concat(" → temporal_conflict");
                    let c = Contradiction {
                        id: numbered_text("contradiction-temporal-", (out.len() - start) as u128 + 1),
                        proposition_ids: ids,
                        contradiction_type: ContradictionKind::Temporal,
                        severity,
                        formal_proof: proof_text,
                        human_explanation: explanation,
                    };
                    out.push(c);
                    proof {
                        assert(id_seq(c.proposition_ids@) =~= seq![a.id@, b.id@]);
                        assert(cores_of(out@) =~= cores_of(before).push(core_of(c)));
                        assert(f(s[i as int], s[j as int]) == seq![core_of(c)]);
                        assert(cores_of(out@) =~= row_base + pair_row(s, i as int, j + 1, f));
                    }
                },
                None => {
                    proof {
                        assert(f(s[i as int], s[j as int]) == Seq::<ContradictionCore>::empty());
                        assert(cores_of(out@) =~= row_base + pair_row(s, i as int, j + 1, f));
                    }
                },
            }
            j = j + 1;
        }
        proof {
            lemma_pairs_step(s, i as int, f);
            assert(cores_of(out@) =~= cores_of(old(out)@) + pairs_upto(s, i + 1, f));
        }
        i = i + 1;
    }
}

} // verus!

verus! {

/// An assumption that claims sufficiency: its expression holds `≥` or `>=`, or its lower-case
/// statement says "sufficient".
pub open spec fn is_sufficiency_assumption(p: Proposition) -> bool {
    p.prop_type == PropositionKind::Assumption && (contains_seq(p.formal_expression@, "≥"@)
        || contains_seq(p.formal_expression@, ">="@) || contains_seq(
        lower_of(p.statement@),
        "sufficient"@,
    ))
}

/// A proposition whose expression or statement states an amount.
pub open spec fn is_numeric(p: Proposition) -> bool {
    numeric_value(p.formal_expression@) is Some || numeric_value(p.statement@) is Some
}

/// Identifiers joined to `id` by an edge of any kind: targets of its outgoing edges, then
/// sources of its incoming ones, in relationship order.
pub open spec fn related_ids(g: LogicalGraph, id: Seq<char>) -> Seq<Seq<char>> {
    g.relationships@.filter(|r: Relationship| r.from_id@ == id).map_values(
        |r: Relationship| r.to_id@,
    ) + g.relationships@.filter(|r: Relationship| r.to_id@ == id).map_values(
        |r: Relationship| r.from_id@,
    )
}

/// The numeric propositions joined to `p` by an edge, in input order.
pub open spec fn numeric_neighbours(g: LogicalGraph, p: Proposition) -> Seq<Proposition> {
    g.propositions@.filter(|q: Proposition| is_numeric(q) && related_ids(g, p.id@).contains(q.id@))
}

/// The record of the resource strategy for `p`: a sufficiency assumption joined to at least
/// two numeric propositions.
pub open spec fn resource_core(g: LogicalGraph, p: Proposition) -> Seq<ContradictionCore> {
    if is_sufficiency_assumption(p) && numeric_neighbours(g, p).len() >= 2 {
        seq![
            (
                seq![p.id@] + numeric_neighbours(g, p).map_values(|q: Proposition| q.id@),
                ContradictionKind::Empirical,
                if p.is_load_bearing {
                    Severity::Critical
                } else {
                    Severity::Major
                },
                p.formal_expression@ + " — requires verification against numeric constraints"@,
            ),
        ]
    } else {
        Seq::empty()
    }
}

/// Records of the resource strategy for the first `k` propositions.
pub open spec fn resource_cores(g: LogicalGraph, k: int) -> Seq<ContradictionCore>
    decreases k,
{
    if k <= 0 || k > g.propositions@.len() {
        Seq::empty()
    } else {
        resource_cores(g, k - 1) + resource_core(g, g.propositions@[k - 1])
    }
}

/// Identifiers joined to `id` by an edge of any kind.
fn collect_related(graph: &LogicalGraph, id: &String) -> (r: Vec<String>)
    ensures
        id_seq(r@) == related_ids(*graph, id@),
{
    let ghost rels = graph.relationships@;
    let ghost pf = |r: Relationship| r.from_id@ == id@;
    let ghost pt = |r: Relationship| r.to_id@ == id@;
    let ghost mt = |r: Relationship| r.to_id@;
    let ghost mf = |r: Relationship| r.from_id@;
    let mut out: Vec<String> = Vec::new();
    let mut k: usize = 0;
    while k < graph.relationships.len()
        invariant
            rels == graph.relationships@,
            pf == (|r: Relationship| r.from_id@ == id@),
            mt == (|r: Relationship| r.to_id@),
            k <= rels.len(),
            id_seq(out@) == rels.take(k as int).filter(pf).map_values(mt),
        decreases rels.len() - k,
    {
        proof {
            crate::types::lemma_take_filter_step(rels, k as int, pf);
        }
        let rel = &graph.relationships[k];
        if rel.from_id == *id {
            let ghost before = out@;
            out.push(rel.to_id.clone());
            proof {
                let fl = rels.take(k as int).filter(pf);
                assert(fl.push(*rel).map_values(mt) =~= fl.map_values(mt).push(rel.to_id@));
                assert(id_seq(out@) =~= id_seq(before).push(rel.to_id@));
            }
        }
        k = k + 1;
    }
    proof {
        assert(rels.take(k as int) =~= rels);
    }
    let ghost first = id_seq(out@);
    let mut k: usize = 0;
    while k < graph.relationships.len()
        invariant
            rels == graph.relationships@,
            pt == (|r: Relationship| r.to_id@ == id@),
            mf == (|r: Relationship| r.from_id@),
            k <= rels.len(),
            id_seq(out@) == first + rels.take(k as int).filter(pt).map_values(mf),
        decreases rels.len() - k,
    {
        proof {
            crate::types::lemma_take_filter_step(rels, k as int, pt);
        }
        let rel = &graph.relationships[k];
        if rel.to_id == *id {
            let ghost before = out@;
            out.push(rel.from_id.clone());
            proof {
                let fl = rels.take(k as int).filter(pt);
                assert(fl.push(*rel).map_values(mf) =~= fl.map_values(mf).push(rel.from_id@));
                assert(id_seq(out@) =~= id_seq(before).push(rel.from_id@));
                assert(id_seq(out@) =~= first + rels.take(k + 1).filter(pt).map_values(mf));
            }
        }
        k = k + 1;
    }
    proof {
        assert(rels.take(k as int) =~= rels);
    }
    out
}

/// Whether `id` is among `v`.
fn contains_id(v: &Vec<String>, id: &String) -> (r: bool)
    ensures
        r == id_seq(v@).contains(id@),
{
    let mut i: usize = 0;
    while i < v.len()
        invariant
            i <= v@.len(),
            forall|k: int| 0 <= k < i ==> v@[k]@ != id@,
        decreases v.len() - i,
    {
        if v[i] == *id {
            assert(id_seq(v@)[i as int] == id@);
            return true;
        }
        i = i + 1;
    }
    proof {
        if id_seq(v@).contains(id@) {
            let k = choose|k: int| 0 <= k < id_seq(v@).len() && id_seq(v@)[k] == id@;
            assert(v@[k]@ == id@);
        }
    }
    false
}

fn amount_text(a: &crate::parse::Amount) -> String
    requires
        a.mantissa < 1_000_000_000_000_000_000u64,
        a.scale <= 18,
        a.exponent <= 6,
{
    let mult: u128 = if a.exponent == 6 {
        1_000_000
    } else if a.exponent == 3 {
        1_000
    } else {
        1
    };
    let m = a.mantissa as u128;
    assert(m * mult <= 1_000_000_000_000_000_000_000_000u128) by (nonlinear_arith)
        requires
            m < 1_000_000_000_000_000_000u128,
            mult <= 1_000_000u128,
    ;
    decimal_text(m * mult, a.scale as usize)
}

} // verus!

verus! {

/// The amount each proposition states, from its expression, else its statement.
fn amounts_of(graph: &LogicalGraph) -> (r: Vec<Option<crate::parse::Amount>>)
    ensures
        r@.len() == graph.propositions@.len(),
        forall|i: int|
            0 <= i < r@.len() ==> ((#[trigger] r@[i]) is Some <==> is_numeric(graph.propositions@[i])),
        forall|i: int|
            0 <= i < r@.len() && (#[trigger] r@[i]) is Some ==> r@[i].unwrap().mantissa
                < 1_000_000_000_000_000_000u64 && r@[i].unwrap().scale <= 18
                && r@[i].unwrap().exponent <= 6,
{
    let mut r: Vec<Option<crate::parse::Amount>> = Vec::new();
    let mut i: usize = 0;
    while i < graph.propositions.len()
        invariant
            i <= graph.propositions@.len(),
            r@.len() == i,
            forall|k: int|
                0 <= k < i ==> ((#[trigger] r@[k]) is Some <==> is_numeric(graph.propositions@[k])),
            forall|k: int|
                0 <= k < i && (#[trigger] r@[k]) is Some ==> r@[k].unwrap().mantissa
                    < 1_000_000_000_000_000_000u64 && r@[k].unwrap().scale <= 18
                    && r@[k].unwrap().exponent <= 6,
        decreases graph.propositions.len() - i,
    {
        let p = &graph.propositions[i];
        let a = match extract_numeric_value(p.formal_expression.as_str()) {
            Some(a) => Some(a),
            None => extract_numeric_value(p.statement.as_str()),
        };
        r.push(a);
        i = i + 1;
    }
    r
}

/// Positions of the numeric propositions whose identifiers are among `related`.
fn numeric_positions(
    graph: &LogicalGraph,
    amounts: &Vec<Option<crate::parse::Amount>>,
    related: &Vec<String>,
    p: Ghost<Proposition>,
) -> (r: Vec<usize>)
    requires
        amounts@.len() == graph.propositions@.len(),
        forall|i: int|
            0 <= i < amounts@.len() ==> ((#[trigger] amounts@[i]) is Some <==> is_numeric(
                graph.propositions@[i],
            )),
        id_seq(related@) == related_ids(*graph, p@.id@),
    ensures
        r@.map_values(|x: usize| graph.propositions@[x as int]) == numeric_neighbours(*graph, p@),
        forall|k: int| 0 <= k < r@.len() ==> (r@[k] as int) < graph.propositions@.len(),
{
    let ghost s = graph.propositions@;
    let ghost pred = |q: Proposition| is_numeric(q) && related_ids(*graph, p@.id@).contains(q.id@);
    let mut r: Vec<usize> = Vec::new();
    let mut i: usize = 0;
    while i < graph.propositions.len()
        invariant
            s == graph.propositions@,
            pred == (|q: Proposition| is_numeric(q) && related_ids(*graph, p@.id@).contains(q.id@)),
            amounts@.len() == s.len(),
            forall|k: int| 0 <= k < amounts@.len() ==> ((#[trigger] amounts@[k]) is Some <==> is_numeric(s[k])),
            id_seq(related@) == related_ids(*graph, p@.id@),
            i <= s.len(),
            r@.map_values(|x: usize| s[x as int]) == s.take(i as int).filter(pred),
            forall|k: int| 0 <= k < r@.len() ==> (r@[k] as int) < s.len(),
        decreases s.len() - i,
    {
        proof {
            crate::types::lemma_take_filter_step(s, i as int, pred);
        }
        if amounts[i].is_some() && contains_id(related, &graph.propositions[i].id) {
            let ghost before = r@;
            r.push(i);
            proof {
                assert(r@.map_values(|x: usize| s[x as int]) =~= before.map_values(
                    |x: usize| s[x as int],
                ).push(s[i as int]));
            }
        }
        i = i + 1;
    }
    proof {
        assert(s.take(i as int) =~= s);
    }
    r
}

/// Appends the records of the resource strategy.
pub fn detect_resource_contradictions(
    graph: &LogicalGraph,
    folded: &Vec<FoldedText>,
    out: &mut Vec<Contradiction>,
)
    requires
        folds(graph.propositions@, folded@),
    ensures
        keeps(old(out)@, final(out)@),
        numbered(final(out)@, old(out)@.len() as int, final(out)@.len() as int, "contradiction-resource-"@),
        cores_of(final(out)@) == cores_of(old(out)@) + resource_cores(
            *graph,
            graph.propositions@.len() as int,
        ),
{
    let amounts = amounts_of(graph);
    let start = out.len();
    let mut i: usize = 0;
    while i < graph.propositions.len()
        invariant
            keeps(old(out)@, out@),
            start == old(out)@.len(),
            numbered(out@, start as int, out@.len() as int, "contradiction-resource-"@),
            folds(graph.propositions@, folded@),
            amounts@.len() == graph.propositions@.len(),
            forall|k: int|
                0 <= k < amounts@.len() ==> ((#[trigger] amounts@[k]) is Some <==> is_numeric(
                    graph.propositions@[k],
                )),
            forall|k: int|
                0 <= k < amounts@.len() && (#[trigger] amounts@[k]) is Some ==> amounts@[k].unwrap().mantissa
                    < 1_000_000_000_000_000_000u64 && amounts@[k].unwrap().scale <= 18
                    && amounts@[k].unwrap().exponent <= 6,
            i <= graph.propositions@.len(),
            start <= out@.len(),
            cores_of(out@) == cores_of(old(out)@) + resource_cores(*graph, i as int),
        decreases graph.propositions.len() - i,
    {
        let p = &graph.propositions[i];
        let expr = crate::text::chars_of(p.formal_expression.as_str());
        let ghost before = out@;
        let sufficiency = p.prop_type == PropositionKind::Assumption && (contains_chars(&expr, "≥")
            || contains_chars(&expr, ">=") || contains_chars(&folded[i].statement, "sufficient"));
        if sufficiency {
            let related = collect_related(graph, &p.id);
            let nbrs = numeric_positions(graph, &amounts, &related, Ghost(*p));
            if nbrs.len() >= 2 {
                let mut ids: Vec<String> = Vec::new();
                ids.push(p.id.clone());
                let mut listing = String::new();
                let mut k: usize = 0;
                while k < nbrs.len()
                    invariant
                keeps(old(out)@, out@),
                start == old(out)@.len(),
                numbered(out@, start as int, out@.len() as int, "contradiction-resource-"@),
            keeps(old(out)@, out@),
            start == old(out)@.len(),
            numbered(out@, start as int, out@.len() as int, "contradiction-resource-"@),
                        forall|t: int| 0 <= t < nbrs@.len() ==> (nbrs@[t] as int) < graph.propositions@.len(),
                        amounts@.len() == graph.propositions@.len(),
                        forall|t: int|
                            0 <= t < amounts@.len() ==> ((#[trigger] amounts@[t]) is Some <==> is_numeric(
                                graph.propositions@[t],
                            )),
                        forall|t: int|
                            0 <= t < amounts@.len() && (#[trigger] amounts@[t]) is Some ==> amounts@[t].unwrap().mantissa
                                < 1_000_000_000_000_000_000u64 && amounts@[t].unwrap().scale <= 18
                                && amounts@[t].unwrap().exponent <= 6,
                        k <= nbrs@.len(),
                        ids@.len() == k + 1,
                        ids@[0]@ == p.id@,
                        forall|t: int| 0 <= t < k ==> ids@[t + 1]@ == graph.propositions@[nbrs@[t] as int].id@,
                    decreases nbrs.len() - k,
                {
                    let q = &graph.propositions[nbrs[k]];
                    ids.push(q.id.clone());
                    if k > 0 {
                        listing = listing.concat(", ");
                    }
                    listing = listing.concat(quoted(&q.statement).as_str());
                    match &amounts[nbrs[k]] {
                        Some(a) => {
                            listing = listing.concat(" (").concat(amount_text(a).as_str()).concat(")");
                        },
                        None => {},
                    }
                    k = k + 1;
                }
                let explanation = String::from_str("The assumption ").concat(
                    quoted(&p.statement).as_str(),
                ).concat(" may not hold when checked against the actual numbers: ").concat(
                    listing.as_str(),
                ).concat(". Verify that the math supports this claim.");
                let proof_text = p.formal_expression.clone().concat(
                    " — requires verification against numeric constraints",
                );
                let c = Contradiction {
                    id: numbered_text("contradiction-resource-", (out.len() - start) as u128 + 1),
                    proposition_ids: ids,
                    contradiction_type: ContradictionKind::Empirical,
                    severity: if p.is_load_bearing {
                        Severity::Critical
                    } else {
                        Severity::Major
                    },
                    formal_proof: proof_text,
                    human_explanation: explanation,
                };
                out.push(c);
                proof {
                    let nb = numeric_neighbours(*graph, *p);
                    assert(nbrs@.map_values(|x: usize| graph.propositions@[x as int]) == nb);
                    assert forall|t: int| 0 <= t < nb.len() implies nb[t].id@ == graph.propositions@[nbrs@[t] as int].id@ by {
                        assert(nbrs@.map_values(|x: usize| graph.propositions@[x as int])[t] == nb[t]);
                    }
                    assert(id_seq(c.proposition_ids@) =~= seq![p.id@] + nb.map_values(
                        |q: Proposition| q.id@,
                    ));
                    assert(cores_of(out@) =~= cores_of(before).push(core_of(c)));
                    assert(resource_core(*graph, *p) == seq![core_of(c)]);
                }
            } else {
                proof {
                    assert(nbrs@.map_values(|x: usize| graph.propositions@[x as int]).len() == nbrs@.len());
                    assert(resource_core(*graph, *p) == Seq::<ContradictionCore>::empty());
                }
            }
        } else {
            proof {
                assert(resource_core(*graph, *p) == Seq::<ContradictionCore>::empty());
            }
        }
        proof {
            assert(graph.propositions@[i as int] == *p);
            assert(cores_of(out@) =~= cores_of(old(out)@) + resource_cores(*graph, i + 1));
        }
        i = i + 1;
    }
}

/// Identifiers of the contradiction records: `contradiction-<strategy>-<n>`, counting from one
/// within each strategy's run of records.
pub open spec fn contradiction_ids(g: LogicalGraph, r: Seq<Contradiction>) -> bool {
    let e = explicit_cores(g, g.relationships@.len() as int).len() as int;
    let t = e + temporal_cores(g).len();
    let l = t + logical_cores(g).len();
    &&& numbered(r, 0, e, "contradiction-explicit-"@)
    &&& numbered(r, e, t, "contradiction-temporal-"@)
    &&& numbered(r, t, l, "contradiction-logical-"@)
    &&& numbered(r, l, r.len() as int, "contradiction-resource-"@)
}

/// All contradictions in the graph, strategy by strategy: explicit `contradicts` edges,
/// conflicting time constraints, implications with negated consequents, and sufficiency
/// assumptions that meet numbers. Record identifiers count within each strategy from one.
pub fn detect_contradictions(graph: &LogicalGraph) -> (r: Vec<Contradiction>)
    ensures
        cores_of(r@) == explicit_cores(*graph, graph.relationships@.len() as int) + temporal_cores(
            *graph,
        ) + logical_cores(*graph) + resource_cores(*graph, graph.propositions@.len() as int),
        contradiction_ids(*graph, r@),
{
    let folded = fold_all(&graph.propositions);
    let mut exprs: Vec<Vec<char>> = Vec::new();
    let mut i: usize = 0;
    while i < graph.propositions.len()
        invariant
            i <= graph.propositions@.len(),
            exprs@.len() == i,
            forall|k: int| 0 <= k < i ==> (#[trigger] exprs@[k])@ == graph.propositions@[k].formal_expression@,
        decreases graph.propositions.len() - i,
    {
        exprs.push(crate::text::chars_of(graph.propositions[i].formal_expression.as_str()));
        i = i + 1;
    }
    let mut out: Vec<Contradiction> = Vec::new();
    proof {
        assert(cores_of(out@) =~= Seq::<ContradictionCore>::empty());
    }
    detect_explicit(graph, &mut out);
    let ghost o1 = out@;
    detect_temporal(graph, &folded, &mut out);
    let ghost o2 = out@;
    detect_logical(graph, &exprs, &mut out);
    let ghost o3 = out@;
    detect_resource_contradictions(graph, &folded, &mut out);
    proof {
        assert(cores_of(o1).len() == o1.len());
        assert(cores_of(o2).len() == o2.len());
        assert(cores_of(o3).len() == o3.len());
        assert(cores_of(o1) == explicit_cores(*graph, graph.relationships@.len() as int));
        assert(cores_of(o2) == explicit_cores(*graph, graph.relationships@.len() as int) + temporal_cores(*graph));
        assert(cores_of(o3) == explicit_cores(*graph, graph.relationships@.len() as int) + temporal_cores(*graph) + logical_cores(*graph));
        assert forall|k: int| 0 <= k < o1.len() implies #[trigger] out@[k] == o1[k] by {
            assert(o2[k] == o1[k]);
            assert(o3[k] == o2[k]);
        }
        assert forall|k: int| o1.len() <= k < o2.len() implies #[trigger] out@[k] == o2[k] by {
            assert(o3[k] == o2[k]);
        }
        assert forall|k: int| o2.len() <= k < o3.len() implies #[trigger] out@[k] == o3[k] by {}
        assert(contradiction_ids(*graph, out@));
        assert(cores_of(out@) =~= explicit_cores(*graph, graph.relationships@.len() as int) + temporal_cores(
            *graph,
        ) + logical_cores(*graph) + resource_cores(*graph, graph.propositions@.len() as int));
    }
    out
}

fn implication_text(s: &String, e: &Vec<char>) -> String {
    match crate::parse::parse_implication(e) {
        Some((l, r)) => quoted(s).concat(" implies ").concat(crate::text::chars_to_string(&l).as_str()).concat(
            " → ",
        ).concat(crate::text::chars_to_string(&r).as_str()),
        None => quoted(s),
    }
}

fn logical_explanation(a: &Proposition, b: &Proposition, ea: &Vec<char>, eb: &Vec<char>) -> String {
    let condition = match crate::parse::parse_implication(ea) {
        Some((l, _)) => crate::text::chars_to_string(&l),
        None => String::new(),
    };
    String::from_str("Logical conflict: ").concat(implication_text(&a.statement, ea).as_str()).concat(
        ", but ",
    ).concat(implication_text(&b.statement, eb).as_str()).concat(". Given the same condition (").concat(
        condition.as_str(),
    ).concat("), these lead to contradictory conclusions.")
}

} // verus!
