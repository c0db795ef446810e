use vstd::prelude::*;

use crate::cycle_detection::id_seq;
use crate::text::{lemma_lex_irrefl, lemma_lex_total, lemma_lex_trans, lex_lt, str_lt};

verus! {

pub open spec fn is_word_char(c: char) -> bool {
    ('a' <= c && c <= 'z') || ('A' <= c && c <= 'Z') || ('0' <= c && c <= '9') || c == '_'
}

/// A word outside parentheses counts as a variable when it holds `_` or is all lower case.
pub open spec fn looks_like_variable(w: Seq<char>) -> bool {
    w.contains('_') || forall|k: int| 0 <= k < w.len() ==> ('a' <= #[trigger] w[k] && w[k] <= 'z') || w[k] == '_'
}

/// Left-to-right scan of a formal expression: variables found so far, the identifier being
/// read (a run of `[A-Za-z0-9_]`), and whether the scan is inside parentheses. Any other
/// character ends the identifier: one directly before `(` is a function name and is dropped;
/// inside parentheses every identifier is a variable; outside, one is kept when it looks like
/// a variable. `(` enters parentheses and `)` leaves them.
pub open spec fn var_scan(s: Seq<char>) -> (Seq<Seq<char>>, Seq<char>, bool)
    decreases s.len(),
{
    if s.len() == 0 {
        (Seq::empty(), Seq::empty(), false)
    } else {
        let (vars, cur, inp) = var_scan(s.drop_last());
        let c = s.last();
        if is_word_char(c) {
            (vars, cur.push(c), inp)
        } else {
            let kept = if cur.len() > 0 && c != '(' && (inp || looks_like_variable(cur)) {
                vars.push(cur)
            } else {
                vars
            };
            let now_in = if c == '(' {
                true
            } else if c == ')' {
                false
            } else {
                inp
            };
            (kept, Seq::empty(), now_in)
        }
    }
}

/// Every variable the scan finds, the trailing word included.
pub open spec fn raw_variables(s: Seq<char>) -> Seq<Seq<char>> {
    let (vars, cur, inp) = var_scan(s);
    if cur.len() > 0 && (inp || looks_like_variable(cur)) {
        vars.push(cur)
    } else {
        vars
    }
}

/// Logical words that are never variables.
pub open spec fn is_stopword(w: Seq<char>) -> bool {
    w == "true"@ || w == "false"@ || w == "and"@ || w == "or"@ || w == "not"@
}

/// A found variable that is kept: longer than one character and no stopword.
pub open spec fn kept_variable(w: Seq<char>) -> bool {
    w.len() > 1 && !is_stopword(w)
}

fn word_looks_like_variable(w: &Vec<char>) -> (r: bool)
    ensures
        r == looks_like_variable(w@),
{
    let mut has_underscore = false;
    let mut all_lower = true;
    let mut k: usize = 0;
    while k < w.len()
        invariant
            k <= w@.len(),
            has_underscore == w@.take(k as int).contains('_'),
            all_lower == forall|t: int| 0 <= t < k ==> ('a' <= #[trigger] w@[t] && w@[t] <= 'z') || w@[t] == '_',
        decreases w.len() - k,
    {
        let c = w[k];
        proof {
            assert(w@.take(k + 1) =~= w@.take(k as int).push(c));
            let pre = w@.take(k as int);
            let nxt = w@.take(k + 1);
            if pre.contains('_') {
                let t = choose|t: int| 0 <= t < pre.len() && pre[t] == '_';
                assert(nxt[t] == '_');
            }
            if nxt.contains('_') && c != '_' {
                let t = choose|t: int| 0 <= t < nxt.len() && nxt[t] == '_';
                assert(pre[t] == '_');
            }
            if c == '_' {
                assert(nxt[k as int] == '_');
            }
        }
        if c == '_' {
            has_underscore = true;
        }
        if !(('a' <= c && c <= 'z') || c == '_') {
            all_lower = false;
        }
        k = k + 1;
    }
    proof {
        assert(w@.take(k as int) =~= w@);
    }
    has_underscore || all_lower
}

fn is_stopword_exec(w: &Vec<char>) -> (r: bool)
    ensures
        r == is_stopword(w@),
{
    let t = crate::text::chars_of("true");
    let f = crate::text::chars_of("false");
    let a = crate::text::chars_of("and");
    let o = crate::text::chars_of("or");
    let n = crate::text::chars_of("not");
    seq_eq(w, &t) || seq_eq(w, &f) || seq_eq(w, &a) || seq_eq(w, &o) || seq_eq(w, &n)
}

fn seq_eq(a: &Vec<char>, b: &Vec<char>) -> (r: bool)
    ensures
        r == (a@ == b@),
{
    if a.len() != b.len() {
        return false;
    }
    let mut i: usize = 0;
    while i < a.len()
        invariant
            a@.len() == b@.len(),
            i <= a@.len(),
            forall|t: int| 0 <= t < i ==> a@[t] == b@[t],
        decreases a.len() - i,
    {
        if a[i] != b[i] {
            return false;
        }
        i = i + 1;
    }
    assert(a@ =~= b@);
    true
}

/// `v` is strictly increasing in lexicographic order.
pub open spec fn strictly_sorted(v: Seq<Seq<char>>) -> bool {
    forall|i: int, j: int| 0 <= i < j < v.len() ==> lex_lt(v[i], v[j])
}

/// The character sequences of `v`.
pub open spec fn char_seqs(v: Seq<Vec<char>>) -> Seq<Seq<char>> {
    v.map_values(|w: Vec<char>| w@)
}

/// Adds `w` to the sorted list `vars` unless it is there already or is not kept.
fn add_variable(vars: &mut Vec<Vec<char>>, w: &Vec<char>)
    requires
        strictly_sorted(char_seqs(old(vars)@)),
    ensures
        strictly_sorted(char_seqs(final(vars)@)),
        forall|x: Seq<char>|
            #[trigger] char_seqs(final(vars)@).contains(x) <==> (char_seqs(old(vars)@).contains(x) || (x
                == w@ && kept_variable(x))),
{
    let ghost before = char_seqs(vars@);
    if !(w.len() > 1 && !is_stopword_exec(w)) {
        return;
    }
    let mut p: usize = 0;
    while p < vars.len() && str_lt(&vars[p], w)
        invariant
            p <= vars@.len(),
            before == char_seqs(vars@),
            forall|q: int| 0 <= q < p ==> lex_lt(before[q], w@),
        decreases vars.len() - p,
    {
        assert(before[p as int] == vars@[p as int]@);
        p = p + 1;
    }
    if p < vars.len() && seq_eq(&vars[p], w) {
        proof {
            assert(before[p as int] == w@);
        }
        return;
    }
    proof {
        if p < vars@.len() {
            assert(before[p as int] == vars@[p as int]@);
            lemma_lex_total(before[p as int], w@);
        }
    }
    let ghost old_v = vars@;
    let wc = w.clone();
    assert(wc@ == w@);
    vars.insert(p, wc);
    proof {
        let nv = char_seqs(vars@);
        assert(vars@ == old_v.insert(p as int, wc));
        assert(nv =~= before.insert(p as int, w@));
        assert forall|i: int, j: int| 0 <= i < j < nv.len() implies lex_lt(nv[i], nv[j]) by {
            if j == p {
                assert(nv[i] == before[i]);
            } else if i == p {
                assert(nv[j] == before[j - 1]);
                if j - 1 > p {
                    assert(lex_lt(before[p as int], before[j - 1]));
                    lemma_lex_trans(w@, before[p as int], before[j - 1], 0);
                }
            } else if j < p {
                assert(nv[i] == before[i] && nv[j] == before[j]);
            } else if i < p {
                assert(nv[i] == before[i] && nv[j] == before[j - 1]);
            } else {
                assert(nv[i] == before[i - 1] && nv[j] == before[j - 1]);
            }
        }
        assert forall|x: Seq<char>| #[trigger] nv.contains(x) <==> (before.contains(x) || (x == w@
            && kept_variable(x))) by {
            if before.contains(x) {
                let k = choose|k: int| 0 <= k < before.len() && before[k] == x;
                if k < p {
                    assert(nv[k] == x);
                } else {
                    assert(nv[k + 1] == x);
                }
            }
            if x == w@ {
                assert(nv[p as int] == x);
            }
            if nv.contains(x) {
                let k = choose|k: int| 0 <= k < nv.len() && nv[k] == x;
                if k < p {
                    assert(before[k] == x);
                } else if k > p {
                    assert(before[k - 1] == x);
                }
            }
        }
    }
}

} // verus!

verus! {

proof fn lemma_push_contains_seq(s: Seq<Seq<char>>, v: Seq<char>)
    ensures
        forall|x: Seq<char>| #[trigger] s.push(v).contains(x) <==> (s.contains(x) || x == v),
{
    assert forall|x: Seq<char>| #[trigger] s.push(v).contains(x) <==> (s.contains(x) || x == v) by {
        if s.contains(x) {
            let i = choose|i: int| 0 <= i < s.len() && s[i] == x;
            assert(s.push(v)[i] == x);
        }
        if x == v {
            assert(s.push(v)[s.len() as int] == x);
        }
        if s.push(v).contains(x) && x != v {
            let i = choose|i: int| 0 <= i < s.push(v).len() && s.push(v)[i] == x;
            assert(s[i] == x);
        }
    }
}

/// The variables of a formal expression, each once, sorted: identifiers inside parentheses,
/// and identifiers outside that hold `_` or are all lower case, leaving out function names,
/// one-letter identifiers and the words `true`, `false`, `and`, `or`, `not`.
pub fn extract_variables(expr: &str) -> (r: Vec<String>)
    ensures
        strictly_sorted(id_seq(r@)),
        id_seq(r@).no_duplicates(),
        forall|x: Seq<char>|
            #[trigger] id_seq(r@).contains(x) <==> (raw_variables(expr@).contains(x) && kept_variable(
                x,
            )),
{
    let s = crate::text::chars_of(expr);
    let mut vars: Vec<Vec<char>> = Vec::new();
    let mut cur: Vec<char> = Vec::new();
    let mut inp = false;
    let mut i: usize = 0;
    while i < s.len()
        invariant
            i <= s@.len(),
            s@ == expr@,
            strictly_sorted(char_seqs(vars@)),
            var_scan(s@.take(i as int)).1 == cur@,
            var_scan(s@.take(i as int)).2 == inp,
            forall|x: Seq<char>|
                #[trigger] char_seqs(vars@).contains(x) <==> (var_scan(s@.take(i as int)).0.contains(x)
                    && kept_variable(x)),
        decreases s.len() - i,
    {
        let c = s[i];
        let ghost prev = var_scan(s@.take(i as int));
        proof {
            assert(s@.take(i + 1).drop_last() =~= s@.take(i as int));
            assert(s@.take(i + 1).last() == c);
            lemma_push_contains_seq(prev.0, cur@);
        }
        let word = ('a' <= c && c <= 'z') || ('A' <= c && c <= 'Z') || ('0' <= c && c <= '9') || c
            == '_';
        if word {
            cur.push(c);
        } else {
            if cur.len() > 0 && c != '(' && (inp || word_looks_like_variable(&cur)) {
                add_variable(&mut vars, &cur);
            }
            cur = Vec::new();
            if c == '(' {
                inp = true;
            } else if c == ')' {
                inp = false;
            }
        }
        i = i + 1;
    }
    proof {
        assert(s@.take(i as int) =~= s@);
        lemma_push_contains_seq(var_scan(s@).0, cur@);
    }
    if cur.len() > 0 && (inp || word_looks_like_variable(&cur)) {
        add_variable(&mut vars, &cur);
    }
    let mut r: Vec<String> = Vec::new();
    let mut k: usize = 0;
    while k < vars.len()
        invariant
            k <= vars@.len(),
            r@.len() == k,
            forall|t: int| 0 <= t < k ==> r@[t]@ == vars@[t]@,
        decreases vars.len() - k,
    {
        r.push(crate::text::chars_to_string(&vars[k]));
        k = k + 1;
    }
    proof {
        assert(id_seq(r@) =~= char_seqs(vars@));
        let v = id_seq(r@);
        assert(strictly_sorted(v));
        assert forall|a: int, b: int| 0 <= a < b < v.len() implies v[a] != v[b] by {
            assert(lex_lt(v[a], v[b]));
            lemma_lex_irrefl(v[a], 0);
        }
    }
    r
}

} // verus!
