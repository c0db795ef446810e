use vstd::prelude::*;

use crate::text::{first_occ, find_seq, split_whitespace, split_ws, trim, trim_seq, chars_of};

verus! {

/// Ten to the power `e`.
pub open spec fn pow10(e: nat) -> nat
    decreases e,
{
    if e == 0 {
        1
    } else {
        10 * pow10((e - 1) as nat)
    }
}

/// Most digits a number may have to be read.
pub const MAX_DIGITS: u64 = 18;

pub open spec fn is_digit(c: char) -> bool {
    '0' <= c && c <= '9'
}

/// Left-to-right reading of a run of digits and dots: the digits as one integer, how many
/// digits, how many dots, how many digits after the first dot, and whether some other
/// character occurred.
pub open spec fn decimal_scan(s: Seq<char>) -> (nat, nat, nat, nat, bool)
    decreases s.len(),
{
    if s.len() == 0 {
        (0, 0, 0, 0, false)
    } else {
        let (m, nd, dots, scale, bad) = decimal_scan(s.drop_last());
        let c = s.last();
        if is_digit(c) {
            (
                m * 10 + (c as u32 - '0' as u32) as nat,
                nd + 1,
                dots,
                if dots > 0 {
                    scale + 1
                } else {
                    scale
                },
                bad,
            )
        } else if c == '.' {
            (m, nd, dots + 1, scale, bad)
        } else {
            (m, nd, dots, scale, true)
        }
    }
}

/// A decimal number `mantissa / 10^scale` read from digits with at most one dot, at least
/// one digit, and no more than `MAX_DIGITS` digits.
pub open spec fn parse_decimal(s: Seq<char>) -> Option<(nat, nat)> {
    let (m, nd, dots, scale, bad) = decimal_scan(s);
    if !bad && nd >= 1 && nd <= MAX_DIGITS && dots <= 1 {
        Some((m, scale))
    } else {
        None
    }
}

proof fn lemma_scan_bounds(s: Seq<char>)
    ensures
        decimal_scan(s).0 < pow10(decimal_scan(s).1),
        decimal_scan(s).3 <= decimal_scan(s).1,
    decreases s.len(),
{
    if s.len() > 0 {
        lemma_scan_bounds(s.drop_last());
    }
}

pub proof fn lemma_pow10_mono(a: nat, b: nat)
    requires
        a <= b,
    ensures
        pow10(a) <= pow10(b),
    decreases b,
{
    if a < b {
        lemma_pow10_mono(a, (b - 1) as nat);
    }
}

pub proof fn lemma_pow10_18()
    ensures
        pow10(17) == 100_000_000_000_000_000nat,
        pow10(18) == 1_000_000_000_000_000_000nat,
{
    reveal_with_fuel(pow10, 19);
}

/// A decimal number read from `s`: its digits as one integer and the count of digits after
/// the dot.
pub fn read_decimal(s: &Vec<char>) -> (r: Option<(u64, u64)>)
    ensures
        match r {
            Some((m, sc)) => parse_decimal(s@) == Some((m as nat, sc as nat)) && m
                < 1_000_000_000_000_000_000u64 && sc <= MAX_DIGITS,
            None => parse_decimal(s@) is None,
        },
{
    let mut m: u64 = 0;
    let mut nd: u64 = 0;
    let mut dots: u64 = 0;
    let mut scale: u64 = 0;
    let mut bad = false;
    let mut i: usize = 0;
    while i < s.len()
        invariant
            i <= s@.len(),
            decimal_scan(s@.take(i as int)) == (m as nat, nd as nat, dots as nat, scale as nat, bad),
            nd <= MAX_DIGITS,
            dots <= i,
        decreases s.len() - i,
    {
        let c = s[i];
        proof {
            assert(s@.take(i + 1).drop_last() =~= s@.take(i as int));
            lemma_scan_bounds(s@.take(i as int));
        }
        if '0' <= c && c <= '9' {
            if nd == MAX_DIGITS {
                proof {
                    lemma_scan_never_shrinks(s@, i + 1);
                }
                return None;
            }
            proof {
                lemma_pow10_mono(nd as nat, 17);
                lemma_pow10_18();
            }
            m = m * 10 + (c as u32 - '0' as u32) as u64;
            nd = nd + 1;
            if dots > 0 {
                scale = scale + 1;
            }
        } else if c == '.' {
            dots = dots + 1;
        } else {
            bad = true;
        }
        i = i + 1;
    }
    proof {
        assert(s@.take(i as int) =~= s@);
        lemma_scan_bounds(s@);
        lemma_pow10_mono(nd as nat, 18);
        lemma_pow10_18();
    }
    if !bad && nd >= 1 && dots <= 1 {
        Some((m, scale))
    } else {
        None
    }
}

proof fn lemma_scan_never_shrinks(s: Seq<char>, k: int)
    requires
        0 <= k <= s.len(),
        decimal_scan(s.take(k)).1 > MAX_DIGITS,
    ensures
        parse_decimal(s) is None,
    decreases s.len() - k,
{
    if k < s.len() {
        assert(s.take(k + 1).drop_last() =~= s.take(k));
        lemma_scan_never_shrinks(s, k + 1);
    } else {
        assert(s.take(k) =~= s);
    }
}

} // verus!

verus! {

/// Keeps the characters of `s` that `keep` accepts.
pub open spec fn keep_chars(s: Seq<char>, keep: spec_fn(char) -> bool) -> Seq<char> {
    s.filter(keep)
}

pub open spec fn is_number_char(c: char) -> bool {
    is_digit(c) || c == '.'
}

pub open spec fn is_amount_char(c: char) -> bool {
    is_digit(c) || c == '.' || c == 'K' || c == 'k' || c == 'M' || c == 'm'
}

pub open spec fn is_suffix_char(c: char) -> bool {
    c == 'K' || c == 'k' || c == 'M' || c == 'm'
}

pub open spec fn not_comma(c: char) -> bool {
    c != ','
}

/// `s` without its trailing run of `K`, `k`, `M`, `m`.
pub open spec fn strip_suffix(s: Seq<char>) -> Seq<char>
    decreases s.len(),
{
    if s.len() > 0 && is_suffix_char(s.last()) {
        strip_suffix(s.drop_last())
    } else {
        s
    }
}

/// Power of ten that a trailing `K` (three) or `M` (six) stands for.
pub open spec fn suffix_exponent(s: Seq<char>) -> nat {
    if s.len() > 0 && (s.last() == 'K' || s.last() == 'k') {
        3
    } else if s.len() > 0 && (s.last() == 'M' || s.last() == 'm') {
        6
    } else {
        0
    }
}

/// The amount a token states: `(mantissa, scale, exponent)` for the value
/// `mantissa / 10^scale * 10^exponent`, read from its digits, dots and `K`/`M` suffix.
pub open spec fn token_amount(t: Seq<char>) -> Option<(nat, nat, nat)> {
    let c = keep_chars(t, |c: char| is_amount_char(c));
    if c.len() == 0 {
        None
    } else {
        match parse_decimal(strip_suffix(c)) {
            Some((m, sc)) => Some((m, sc, suffix_exponent(c))),
            None => None,
        }
    }
}

/// The amount of the first token at or after `i` that states one.
pub open spec fn first_amount(tokens: Seq<Seq<char>>, i: int) -> Option<(nat, nat, nat)>
    decreases tokens.len() - i,
{
    if i < 0 || i >= tokens.len() {
        None
    } else {
        match token_amount(tokens[i]) {
            Some(v) => Some(v),
            None => first_amount(tokens, i + 1),
        }
    }
}

/// The first amount stated in a text, commas ignored.
pub open spec fn numeric_value(text: Seq<char>) -> Option<(nat, nat, nat)> {
    first_amount(split_ws(keep_chars(text, |c: char| not_comma(c))), 0)
}

/// An amount read from text: `mantissa / 10^scale * 10^exponent`.
#[derive(Clone, Copy, Debug)]
pub struct Amount {
    pub mantissa: u64,
    pub scale: u64,
    pub exponent: u64,
}

/// The characters of `s` that `keep` accepts, for the filters used in reading numbers.
fn filter_chars(s: &Vec<char>, which: u8) -> (r: Vec<char>)
    ensures
        which == 0 ==> r@ == keep_chars(s@, |c: char| is_number_char(c)),
        which == 1 ==> r@ == keep_chars(s@, |c: char| is_amount_char(c)),
        which == 2 ==> r@ == keep_chars(s@, |c: char| not_comma(c)),
{
    let ghost f0 = |c: char| is_number_char(c);
    let ghost f1 = |c: char| is_amount_char(c);
    let ghost f2 = |c: char| not_comma(c);
    let mut r: Vec<char> = Vec::new();
    let mut i: usize = 0;
    while i < s.len()
        invariant
            f0 == (|c: char| is_number_char(c)),
            f1 == (|c: char| is_amount_char(c)),
            f2 == (|c: char| not_comma(c)),
            i <= s@.len(),
            which == 0 ==> r@ == s@.take(i as int).filter(f0),
            which == 1 ==> r@ == s@.take(i as int).filter(f1),
            which == 2 ==> r@ == s@.take(i as int).filter(f2),
        decreases s.len() - i,
    {
        let c = s[i];
        proof {
            crate::types::lemma_take_filter_step(s@, i as int, f0);
            crate::types::lemma_take_filter_step(s@, i as int, f1);
            crate::types::lemma_take_filter_step(s@, i as int, f2);
        }
        let is_digit_c = '0' <= c && c <= '9';
        let keep = if which == 0 {
            is_digit_c || c == '.'
        } else if which == 1 {
            is_digit_c || c == '.' || c == 'K' || c == 'k' || c == 'M' || c == 'm'
        } else {
            c != ','
        };
        assert(which == 0 ==> f0(c) == keep);
        assert(which == 1 ==> f1(c) == keep);
        assert(which == 2 ==> f2(c) == keep);
        if keep {
            r.push(c);
        }
        i = i + 1;
    }
    proof {
        assert(s@.take(i as int) =~= s@);
    }
    r
}

/// `s` without its trailing run of `K`, `k`, `M`, `m`.
fn strip_amount_suffix(s: &Vec<char>) -> (r: Vec<char>)
    ensures
        r@ == strip_suffix(s@),
{
    let mut j: usize = s.len();
    proof {
        assert(s@.take(j as int) =~= s@);
    }
    while j > 0 && (s[j - 1] == 'K' || s[j - 1] == 'k' || s[j - 1] == 'M' || s[j - 1] == 'm')
        invariant
            j <= s@.len(),
            strip_suffix(s@) == strip_suffix(s@.take(j as int)),
        decreases j,
    {
        proof {
            assert(s@.take(j as int).drop_last() =~= s@.take(j - 1));
        }
        j = j - 1;
    }
    let mut r: Vec<char> = Vec::new();
    let mut k: usize = 0;
    while k < j
        invariant
            j <= s@.len(),
            k <= j,
            r@ == s@.take(k as int),
        decreases j - k,
    {
        r.push(s[k]);
        proof {
            assert(s@.take(k + 1) =~= s@.take(k as int).push(s@[k as int]));
        }
        k = k + 1;
    }
    r
}

/// The amount a single token states.
fn read_token_amount(t: &Vec<char>) -> (r: Option<Amount>)
    ensures
        match r {
            Some(a) => token_amount(t@) == Some((a.mantissa as nat, a.scale as nat, a.exponent as nat))
                && a.mantissa < 1_000_000_000_000_000_000u64 && a.scale <= MAX_DIGITS && a.exponent <= 6,
            None => token_amount(t@) is None,
        },
{
    let c = filter_chars(t, 1);
    if c.len() == 0 {
        return None;
    }
    let last = c[c.len() - 1];
    let exponent: u64 = if last == 'K' || last == 'k' {
        3
    } else if last == 'M' || last == 'm' {
        6
    } else {
        0
    };
    let num = strip_amount_suffix(&c);
    match read_decimal(&num) {
        Some((m, sc)) => Some(Amount { mantissa: m, scale: sc, exponent }),
        None => None,
    }
}

/// The first amount stated in a text, commas ignored: a token's digits, dots and `K`/`M`
/// letters, read as a decimal number scaled by a trailing `K` (thousand) or `M` (million).
pub fn extract_numeric_value(text: &str) -> (r: Option<Amount>)
    ensures
        match r {
            Some(a) => numeric_value(text@) == Some((a.mantissa as nat, a.scale as nat, a.exponent as nat))
                && a.mantissa < 1_000_000_000_000_000_000u64 && a.scale <= MAX_DIGITS && a.exponent <= 6,
            None => numeric_value(text@) is None,
        },
{
    let chars = chars_of(text);
    let cleaned = filter_chars(&chars, 2);
    let tokens = split_whitespace(&cleaned);
    let ghost toks = tokens@.map_values(|t: Vec<char>| t@);
    let mut i: usize = 0;
    while i < tokens.len()
        invariant
            toks == tokens@.map_values(|t: Vec<char>| t@),
            toks == split_ws(keep_chars(text@, |c: char| not_comma(c))),
            i <= tokens@.len(),
            first_amount(toks, 0) == first_amount(toks, i as int),
        decreases tokens.len() - i,
    {
        assert(toks[i as int] == tokens@[i as int]@);
        match read_token_amount(&tokens[i]) {
            Some(a) => {
                return Some(a);
            },
            None => {},
        }
        i = i + 1;
    }
    None
}

} // verus!

verus! {

/// The comparison a duration is stated with.
#[derive(Clone, Copy, Debug, PartialEq, Eq, Structural)]
pub enum DurationOp {
    Greater,
    Less,
    Equal,
}

/// A duration read from text: `op` and the length `mantissa / 10^scale` units, one unit
/// lasting `quarters` quarter-months.
#[derive(Clone, Copy, Debug)]
pub struct Duration {
    pub op: DurationOp,
    pub mantissa: u64,
    pub scale: u64,
    pub quarters: u64,
}

/// The last of the first `k` tokens whose digits and dots read as a number.
pub open spec fn last_number_below(parts: Seq<Seq<char>>, k: int) -> Option<int>
    decreases k,
{
    if k <= 0 || k > parts.len() {
        None
    } else if parse_decimal(keep_chars(parts[k - 1], |c: char| is_number_char(c))) is Some {
        Some(k - 1)
    } else {
        last_number_below(parts, k - 1)
    }
}

/// The comparison a token carries at its front.
pub open spec fn own_op(t: Seq<char>) -> DurationOp {
    if t.len() > 0 && t[0] == '>' {
        DurationOp::Greater
    } else if t.len() > 0 && t[0] == '<' {
        DurationOp::Less
    } else {
        DurationOp::Equal
    }
}

/// The comparison for the number in token `i`: the token before it when that is `>`, `>=`,
/// `<` or `<=`, else the token's own leading `>` or `<`, else equality.
pub open spec fn op_at(parts: Seq<Seq<char>>, i: int) -> DurationOp {
    if i >= 1 && (parts[i - 1] == seq!['>'] || parts[i - 1] == seq!['>', '=']) {
        DurationOp::Greater
    } else if i >= 1 && (parts[i - 1] == seq!['<'] || parts[i - 1] == seq!['<', '=']) {
        DurationOp::Less
    } else {
        own_op(parts[i])
    }
}

/// The duration stated in `text` before the first occurrence of `unit`:
/// `(op, mantissa, scale, quarters)`.
pub open spec fn duration_in_unit(text: Seq<char>, unit: Seq<char>, quarters: nat) -> Option<
    (DurationOp, nat, nat, nat),
> {
    match first_occ(text, unit) {
        Some(pos) => {
            let parts = split_ws(text.subrange(0, pos));
            match last_number_below(parts, parts.len() as int) {
                Some(i) => {
                    let (m, sc) = parse_decimal(
                        keep_chars(parts[i], |c: char| is_number_char(c)),
                    ).unwrap();
                    Some((op_at(parts, i), m, sc, quarters))
                },
                None => None,
            }
        },
        None => None,
    }
}

/// The duration a text states, trying months, then years, then weeks.
pub open spec fn duration_of(text: Seq<char>) -> Option<(DurationOp, nat, nat, nat)> {
    match duration_in_unit(text, "month"@, 4) {
        Some(d) => Some(d),
        None => match duration_in_unit(text, "year"@, 48) {
            Some(d) => Some(d),
            None => duration_in_unit(text, "week"@, 1),
        },
    }
}

/// The comparison for the number in token `i`.
fn read_op(parts: &Vec<Vec<char>>, i: usize) -> (r: DurationOp)
    requires
        i < parts@.len(),
    ensures
        r == op_at(parts@.map_values(|t: Vec<char>| t@), i as int),
{
    let ghost ps = parts@.map_values(|t: Vec<char>| t@);
    proof {
        reveal_strlit(">");
        reveal_strlit(">=");
        reveal_strlit("<");
        reveal_strlit("<=");
        assert(ps[i as int] == parts@[i as int]@);
        if i >= 1 {
            assert(ps[i - 1] == parts@[i - 1]@);
        }
    }
    if i >= 1 {
        let p = &parts[i - 1];
        let gt = p.len() == 1 && p[0] == '>';
        let ge = p.len() == 2 && p[0] == '>' && p[1] == '=';
        let lt = p.len() == 1 && p[0] == '<';
        let le = p.len() == 2 && p[0] == '<' && p[1] == '=';
        proof {
            assert(gt == (p@ == seq!['>'])) by {
                if p@.len() == 1 && p@[0] == '>' {
                    assert(p@ =~= seq!['>']);
                }
            }
            assert(ge == (p@ == seq!['>', '='])) by {
                if p@.len() == 2 && p@[0] == '>' && p@[1] == '=' {
                    assert(p@ =~= seq!['>', '=']);
                }
            }
            assert(lt == (p@ == seq!['<'])) by {
                if p@.len() == 1 && p@[0] == '<' {
                    assert(p@ =~= seq!['<']);
                }
            }
            assert(le == (p@ == seq!['<', '='])) by {
                if p@.len() == 2 && p@[0] == '<' && p@[1] == '=' {
                    assert(p@ =~= seq!['<', '=']);
                }
            }
        }
        if gt || ge {
            return DurationOp::Greater;
        }
        if lt || le {
            return DurationOp::Less;
        }
    }
    let t = &parts[i];
    if t.len() > 0 && t[0] == '>' {
        DurationOp::Greater
    } else if t.len() > 0 && t[0] == '<' {
        DurationOp::Less
    } else {
        DurationOp::Equal
    }
}

/// The duration stated before the first occurrence of `unit` in `text`.
fn duration_for_unit(text: &Vec<char>, unit: &str, quarters: u64) -> (r: Option<Duration>)
    ensures
        match r {
            Some(d) => duration_in_unit(text@, unit@, quarters as nat) == Some(
                (d.op, d.mantissa as nat, d.scale as nat, d.quarters as nat),
            ) && d.mantissa < 1_000_000_000_000_000_000u64 && d.scale <= MAX_DIGITS && d.quarters
                == quarters,
            None => duration_in_unit(text@, unit@, quarters as nat) is None,
        },
{
    let u = chars_of(unit);
    let pos = match find_seq(text, &u) {
        Some(p) => p,
        None => {
            return None;
        },
    };
    let mut before: Vec<char> = Vec::new();
    let mut k: usize = 0;
    while k < pos
        invariant
            first_occ(text@, u@) == Some(pos as int),
            pos <= text@.len(),
            k <= pos,
            before@ == text@.subrange(0, k as int),
        decreases pos - k,
    {
        before.push(text[k]);
        k = k + 1;
    }
    let parts = split_whitespace(&before);
    let ghost ps = parts@.map_values(|t: Vec<char>| t@);
    let mut i: usize = parts.len();
    while i > 0
        invariant
            ps == parts@.map_values(|t: Vec<char>| t@),
            ps == split_ws(text@.subrange(0, pos as int)),
            first_occ(text@, unit@) == Some(pos as int),
            i <= parts@.len(),
            last_number_below(ps, ps.len() as int) == last_number_below(ps, i as int),
        decreases i,
    {
        let digits = filter_chars(&parts[i - 1], 0);
        assert(ps[i - 1] == parts@[i - 1]@);
        match read_decimal(&digits) {
            Some((m, sc)) => {
                let op = read_op(&parts, i - 1);
                return Some(Duration { op, mantissa: m, scale: sc, quarters });
            },
            None => {},
        }
        i = i - 1;
    }
    None
}

/// The duration a lower-case text states: the last number before the first `month`, else
/// before the first `year`, else before the first `week`, with the comparison written next
/// to it.
pub fn extract_duration(text: &Vec<char>) -> (r: Option<Duration>)
    ensures
        match r {
            Some(d) => duration_of(text@) == Some(
                (d.op, d.mantissa as nat, d.scale as nat, d.quarters as nat),
            ) && d.mantissa < 1_000_000_000_000_000_000u64 && d.scale <= MAX_DIGITS && d.quarters
                <= 48,
            None => duration_of(text@) is None,
        },
{
    match duration_for_unit(text, "month", 4) {
        Some(d) => Some(d),
        None => match duration_for_unit(text, "year", 48) {
            Some(d) => Some(d),
            None => duration_for_unit(text, "week", 1),
        },
    }
}

} // verus!

verus! {

/// The two trimmed sides of `e` around the first occurrence of `arrow`, when both are
/// non-empty.
pub open spec fn split_on(e: Seq<char>, arrow: Seq<char>) -> Option<(Seq<char>, Seq<char>)> {
    match first_occ(e, arrow) {
        Some(p) => {
            let lhs = trim_seq(e.subrange(0, p));
            let rhs = trim_seq(e.subrange(p + arrow.len(), e.len() as int));
            if lhs.len() > 0 && rhs.len() > 0 {
                Some((lhs, rhs))
            } else {
                None
            }
        },
        None => None,
    }
}

/// An implication `lhs → rhs` (or `lhs -> rhs`) read from a formal expression.
pub open spec fn implication_of(e: Seq<char>) -> Option<(Seq<char>, Seq<char>)> {
    match split_on(e, "→"@) {
        Some(x) => Some(x),
        None => split_on(e, "->"@),
    }
}

fn split_at_arrow(e: &Vec<char>, arrow: &str) -> (r: Option<(Vec<char>, Vec<char>)>)
    ensures
        match r {
            Some((l, rr)) => split_on(e@, arrow@) == Some((l@, rr@)),
            None => split_on(e@, arrow@) is None,
        },
{
    let a = chars_of(arrow);
    let n = e.len();
    let p = match find_seq(e, &a) {
        Some(p) => p,
        None => {
            return None;
        },
    };
    let mut left: Vec<char> = Vec::new();
    let mut k: usize = 0;
    while k < p
        invariant
            first_occ(e@, a@) == Some(p as int),
            n == e@.len(),
            p + a@.len() <= e@.len(),
            k <= p,
            left@ == e@.subrange(0, k as int),
        decreases p - k,
    {
        left.push(e[k]);
        k = k + 1;
    }
    let mut right: Vec<char> = Vec::new();
    let mut k: usize = p + a.len();
    while k < e.len()
        invariant
            p + a@.len() <= k <= e@.len(),
            right@ == e@.subrange(p + a@.len(), k as int),
        decreases e.len() - k,
    {
        right.push(e[k]);
        k = k + 1;
    }
    let l = trim(&left);
    let r = trim(&right);
    if l.len() > 0 && r.len() > 0 {
        Some((l, r))
    } else {
        None
    }
}

/// An implication read from a formal expression: the trimmed sides around the first `→`,
/// or, failing that, around the first `->`, when both are non-empty.
pub fn parse_implication(expr: &Vec<char>) -> (r: Option<(Vec<char>, Vec<char>)>)
    ensures
        match r {
            Some((l, rr)) => implication_of(expr@) == Some((l@, rr@)),
            None => implication_of(expr@) is None,
        },
{
    match split_at_arrow(expr, "→") {
        Some(x) => Some(x),
        None => split_at_arrow(expr, "->"),
    }
}

/// `s` without its leading run of `¬`.
pub open spec fn drop_negations(s: Seq<char>) -> Seq<char>
    decreases s.len(),
{
    if s.len() > 0 && s[0] == '¬' {
        drop_negations(s.drop_first())
    } else {
        s
    }
}

/// One consequent is the negation of the other: one is the other prefixed with `¬`, or
/// they differ but agree once leading `¬` and white space are stripped.
pub open spec fn negates(a: Seq<char>, b: Seq<char>) -> bool {
    a == seq!['¬'] + b || b == seq!['¬'] + a || (trim_seq(drop_negations(a)) == trim_seq(
        drop_negations(b),
    ) && a != b)
}

/// Two formal expressions are implications from the same antecedent to negated consequents.
pub open spec fn implications_conflict(ea: Seq<char>, eb: Seq<char>) -> bool {
    match (implication_of(ea), implication_of(eb)) {
        (Some((la, ra)), Some((lb, rb))) => la == lb && negates(ra, rb),
        _ => false,
    }
}

fn seq_eq(a: &Vec<char>, b: &Vec<char>) -> (r: bool)
    ensures
        r == (a@ == b@),
{
    if a.len() != b.len() {
        return false;
    }
    let mut i: usize = 0;
    while i < a.len()
        invariant
            a@.len() == b@.len(),
            i <= a@.len(),
            forall|t: int| 0 <= t < i ==> a@[t] == b@[t],
        decreases a.len() - i,
    {
        if a[i] != b[i] {
            return false;
        }
        i = i + 1;
    }
    assert(a@ =~= b@);
    true
}

/// `s` without its leading run of `¬`.
fn strip_negations(s: &Vec<char>) -> (r: Vec<char>)
    ensures
        r@ == drop_negations(s@),
{
    let mut i: usize = 0;
    proof {
        assert(s@.subrange(0, s@.len() as int) =~= s@);
    }
    while i < s.len() && s[i] == '¬'
        invariant
            i <= s@.len(),
            drop_negations(s@) == drop_negations(s@.subrange(i as int, s@.len() as int)),
        decreases s.len() - i,
    {
        proof {
            assert(s@.subrange(i as int, s@.len() as int).drop_first() =~= s@.subrange(
                i + 1,
                s@.len() as int,
            ));
        }
        i = i + 1;
    }
    let mut r: Vec<char> = Vec::new();
    let mut k: usize = i;
    while k < s.len()
        invariant
            i <= k <= s@.len(),
            r@ == s@.subrange(i as int, k as int),
            i < s@.len() ==> s@[i as int] != '¬',
            drop_negations(s@) == drop_negations(s@.subrange(i as int, s@.len() as int)),
        decreases s.len() - k,
    {
        r.push(s[k]);
        k = k + 1;
    }
    r
}

/// `¬` followed by `s`.
fn negated(s: &Vec<char>) -> (r: Vec<char>)
    ensures
        r@ == seq!['¬'] + s@,
{
    let mut r: Vec<char> = Vec::new();
    r.push('¬');
    let mut k: usize = 0;
    while k < s.len()
        invariant
            k <= s@.len(),
            r@ == seq!['¬'] + s@.subrange(0, k as int),
        decreases s.len() - k,
    {
        r.push(s[k]);
        proof {
            assert(seq!['¬'] + s@.subrange(0, k + 1) =~= (seq!['¬'] + s@.subrange(0, k as int)).push(
                s@[k as int],
            ));
        }
        k = k + 1;
    }
    proof {
        assert(s@.subrange(0, k as int) =~= s@);
    }
    r
}

/// Whether two formal expressions are implications from the same antecedent to negated
/// consequents.
pub fn detect_logical_conflict(ea: &Vec<char>, eb: &Vec<char>) -> (r: bool)
    ensures
        r == implications_conflict(ea@, eb@),
{
    match (parse_implication(ea), parse_implication(eb)) {
        (Some((la, ra)), Some((lb, rb))) => {
            if !seq_eq(&la, &lb) {
                return false;
            }
            let na = negated(&ra);
            let nb = negated(&rb);
            if seq_eq(&ra, &nb) || seq_eq(&rb, &na) {
                return true;
            }
            let sa = trim(&strip_negations(&ra));
            let sb = trim(&strip_negations(&rb));
            seq_eq(&sa, &sb) && !seq_eq(&ra, &rb)
        },
        _ => false,
    }
}

} // verus!
