use vstd::prelude::*;

use crate::connect::lemma_contains_concat;
use crate::csp::{
    domain_run, domain_universe, domains_wf, greedy, greedy_replay, holds_on, is_arrangement,
    is_candidate, is_candidate_upto, lemma_filter_member, listed, pair_clues, partner_run,
    satisfies_all,
};
use crate::model::{clue_value, is_first_index, position_in, AttributeValue, Clue, Value};

verus! {

proof fn lemma_filter_no_dup(s: Seq<Seq<Seq<usize>>>, p: spec_fn(Seq<Seq<usize>>) -> bool)
    requires
        s.no_duplicates(),
    ensures
        s.filter(p).no_duplicates(),
    decreases s.len(),
{
    if s.len() > 0 {
        let t = s.drop_last();
        let x = s.last();
        assert(s =~= t.push(x));
        t.lemma_filter_push(x, p);
        assert(t.no_duplicates()) by {
            assert forall|i: int, j: int| 0 <= i < t.len() && 0 <= j < t.len() && i != j implies t[i] != t[j] by {
                assert(t[i] == s[i] && t[j] == s[j]);
            }
        }
        lemma_filter_no_dup(t, p);
        if p(x) {
            let ft = t.filter(p);
            assert(!ft.contains(x)) by {
                if ft.contains(x) {
                    t.lemma_filter_contains_rev(p, x);
                    let k = choose|k: int| 0 <= k < t.len() && t[k] == x;
                    assert(s[k] == s[s.len() - 1]);
                }
            }
            let fs = ft.push(x);
            assert forall|i: int, j: int| 0 <= i < fs.len() && 0 <= j < fs.len() && i != j implies fs[i] != fs[j] by {
                if i < ft.len() && j < ft.len() {
                } else if i < ft.len() {
                    assert(fs[i] == ft[i]);
                } else {
                    assert(fs[j] == ft[j]);
                }
            }
        }
    }
}

proof fn lemma_filter_full(s: Seq<Seq<Seq<usize>>>, p: spec_fn(Seq<Seq<usize>>) -> bool)
    requires
        s.filter(p).len() == s.len(),
    ensures
        forall|i: int| 0 <= i < s.len() ==> p(#[trigger] s[i]),
    decreases s.len(),
{
    if s.len() > 0 {
        let t = s.drop_last();
        let x = s.last();
        assert(s =~= t.push(x));
        t.lemma_filter_push(x, p);
        t.lemma_filter_len(p);
        lemma_filter_full(t, p);
        assert forall|i: int| 0 <= i < s.len() implies p(#[trigger] s[i]) by {
            if i < t.len() {
                assert(s[i] == t[i]);
            }
        }
    }
}

proof fn lemma_greedy_nonempty(values: Seq<AttributeValue>, surv: Seq<Seq<Seq<usize>>>, clues: Seq<Clue>)
    requires
        surv.len() >= 1,
    ensures
        greedy(values, surv, clues).0.len() >= 1,
    decreases clues.len(),
{
    if surv.len() != 1 && clues.len() > 0 {
        let f = surv.filter(holds_on(values, clues[0]));
        if f.len() == 0 || f.len() == surv.len() {
            lemma_greedy_nonempty(values, surv, clues.drop_first());
        } else {
            lemma_greedy_nonempty(values, f, clues.drop_first());
        }
    }
}

proof fn lemma_greedy_no_dup(values: Seq<AttributeValue>, surv: Seq<Seq<Seq<usize>>>, clues: Seq<Clue>)
    requires
        surv.no_duplicates(),
    ensures
        greedy(values, surv, clues).0.no_duplicates(),
    decreases clues.len(),
{
    if surv.len() != 1 && clues.len() > 0 {
        let f = surv.filter(holds_on(values, clues[0]));
        if f.len() == 0 || f.len() == surv.len() {
            lemma_greedy_no_dup(values, surv, clues.drop_first());
        } else {
            lemma_filter_no_dup(surv, holds_on(values, clues[0]));
            lemma_greedy_no_dup(values, f, clues.drop_first());
        }
    }
}

/// A clue that holds of `m1` and fails on `m2` keeps the two from both
/// surviving the greedy selection.
proof fn lemma_greedy_separates(
    values: Seq<AttributeValue>,
    surv: Seq<Seq<Seq<usize>>>,
    clues: Seq<Clue>,
    m1: Seq<Seq<usize>>,
    m2: Seq<Seq<usize>>,
    j: int,
)
    requires
        0 <= j < clues.len(),
        clue_value(values, m1, clues[j]) == Some(true),
        clue_value(values, m2, clues[j]) == Some(false),
    ensures
        !(greedy(values, surv, clues).0.contains(m1) && greedy(values, surv, clues).0.contains(m2)),
    decreases clues.len(),
{
    let g = greedy(values, surv, clues).0;
    if surv.len() == 1 {
        if g.contains(m1) && g.contains(m2) {
            assert(m1 == surv[0] && m2 == surv[0]);
        }
    } else {
        let c = clues[0];
        let p = holds_on(values, c);
        let f = surv.filter(p);
        let rest = clues.drop_first();
        lemma_filter_member(surv, p, m1);
        lemma_filter_member(surv, p, m2);
        if f.len() == 0 || f.len() == surv.len() {
            assert(g == greedy(values, surv, rest).0);
            greedy_replay(values, surv, rest);
            if j == 0 {
                if g.contains(m1) && g.contains(m2) {
                    assert(surv.contains(m1) && surv.contains(m2));
                    assert(f.contains(m1));
                    assert(f.len() > 0);
                    lemma_filter_full(surv, p);
                    let k = choose|k: int| 0 <= k < surv.len() && surv[k] == m2;
                    assert(p(surv[k]));
                }
            } else {
                assert(rest[j - 1] == clues[j]);
                lemma_greedy_separates(values, surv, rest, m1, m2, j - 1);
            }
        } else {
            assert(g == greedy(values, f, rest).0);
            greedy_replay(values, f, rest);
            if j == 0 {
                if g.contains(m1) && g.contains(m2) {
                    assert(f.contains(m2));
                }
            } else {
                assert(rest[j - 1] == clues[j]);
                lemma_greedy_separates(values, f, rest, m1, m2, j - 1);
            }
        }
    }
}

proof fn lemma_in_domain_universe(values: Seq<AttributeValue>, x: int, y: int, c: Clue)
    requires
        0 <= x < values.len(),
        0 <= y < values.len(),
        pair_clues(values, x, y).contains(c),
    ensures
        domain_universe(values).contains(c),
{
    let n = values.len() as int;
    lemma_partner_run_contains(values, x, n, y, c);
    lemma_domain_run_contains(values, n, x, c);
}

proof fn lemma_partner_run_contains(values: Seq<AttributeValue>, x: int, k: int, y: int, c: Clue)
    requires
        0 <= y < k,
        pair_clues(values, x, y).contains(c),
    ensures
        partner_run(values, x, k).contains(c),
    decreases k,
{
    if y < k - 1 {
        lemma_partner_run_contains(values, x, k - 1, y, c);
    }
    lemma_contains_concat(partner_run(values, x, k - 1), pair_clues(values, x, k - 1), c);
}

proof fn lemma_domain_run_contains(values: Seq<AttributeValue>, k: int, x: int, c: Clue)
    requires
        0 <= x < k,
        partner_run(values, x, values.len() as int).contains(c),
    ensures
        domain_run(values, k).contains(c),
    decreases k,
{
    if x < k - 1 {
        lemma_domain_run_contains(values, k - 1, x, c);
    }
    lemma_contains_concat(domain_run(values, k - 1), partner_run(values, k - 1, values.len() as int), c);
}

/// Two distinct candidates differ in some categorical row.
proof fn lemma_candidates_differ(d: Seq<Seq<usize>>, m1: Seq<Seq<usize>>, m2: Seq<Seq<usize>>) -> (r: (int, int))
    requires
        is_candidate(d, m1),
        is_candidate(d, m2),
        m1 != m2,
    ensures
        1 <= r.0 < d.len(),
        0 <= r.1 < d[r.0].len(),
        m1[r.0][r.1] != m2[r.0][r.1],
{
    if !(exists|a: int, e: int| 1 <= a < d.len() && 0 <= e < d[a].len() && #[trigger] m1[a][e] != m2[a][e]) {
        assert forall|a: int| 0 <= a < d.len() implies #[trigger] m1[a] == m2[a] by {
            if a >= 1 {
                assert(is_arrangement(m1[a], d[a]));
                assert(is_arrangement(m2[a], d[a]));
                assert(m1[a] =~= m2[a]);
            }
        }
        assert(m1 =~= m2);
    }
    choose|a: int, e: int| 1 <= a < d.len() && 0 <= e < d[a].len() && #[trigger] m1[a][e] != m2[a][e]
}

/// Row `a` of a candidate holds no value twice.
proof fn lemma_candidate_row_no_dup(d: Seq<Seq<usize>>, m: Seq<Seq<usize>>, a: int)
    requires
        is_candidate(d, m),
        1 <= a < d.len(),
        d[a].no_duplicates(),
    ensures
        m[a].no_duplicates(),
        forall|v: usize| m[a].contains(v) <==> d[a].contains(v),
{
    assert(is_arrangement(m[a], d[a]));
    d[a].lemma_multiset_has_no_duplicates();
    m[a].to_multiset_ensures();
    d[a].to_multiset_ensures();
    m[a].lemma_multiset_has_no_duplicates_conv();
    assert forall|v: usize| m[a].contains(v) <==> d[a].contains(v) by {
        assert(m[a].to_multiset().count(v) == d[a].to_multiset().count(v));
    }
}

/// For well-formed domains, the greedy selection over any ordering of the
/// clue universe of the values, started from the whole candidate space
/// without repeats, always ends with exactly one candidate.
pub proof fn greedy_unique(
    values: Seq<AttributeValue>,
    d: Seq<Seq<usize>>,
    start: Seq<Seq<Seq<usize>>>,
    order: Seq<Clue>,
)
    requires
        domains_wf(values, d),
        forall|k: int| 0 <= k < start.len() ==> is_candidate(d, #[trigger] start[k]),
        forall|m: Seq<Seq<usize>>| #[trigger] is_candidate(d, m) ==> listed(start, m),
        start.no_duplicates(),
        order.to_multiset() == domain_universe(values).to_multiset(),
    ensures
        greedy(values, start, order).0.len() == 1,
{
    assert(is_candidate_upto(d, d, d.len() as int)) by {
        assert forall|a: int| 1 <= a < d.len() implies is_arrangement(#[trigger] d[a], d[a]) by {
        }
    }
    assert(is_candidate(d, d));
    assert(listed(start, d));
    lemma_greedy_nonempty(values, start, order);
    lemma_greedy_no_dup(values, start, order);
    greedy_replay(values, start, order);
    let g = greedy(values, start, order).0;
    if g.len() >= 2 {
        let m1 = g[0];
        let m2 = g[1];
        assert(g.contains(m1) && g.contains(m2));
        assert(start.contains(m1) && start.contains(m2));
        let k1 = choose|k: int| 0 <= k < start.len() && start[k] == m1;
        let k2 = choose|k: int| 0 <= k < start.len() && start[k] == m2;
        assert(is_candidate(d, start[k1]) && is_candidate(d, start[k2]));
        let (a, e) = lemma_candidates_differ(d, m1, m2);
        let x = m1[a][e];
        let y = d[0][e];
        assert(d[a].len() == d[0].len());
        lemma_candidate_row_no_dup(d, m1, a);
        lemma_candidate_row_no_dup(d, m2, a);
        assert(m1[a].len() == d[a].len());
        assert(m2[a].len() == d[a].len());
        assert(m1[a].contains(x));
        assert(d[a].contains(x));
        let kx = choose|k: int| 0 <= k < d[a].len() && d[a][k] == x;
        assert(x < values.len() && values[x as int].attribute == a);
        assert(values[x as int].value is Str);
        assert(y < values.len() && values[y as int].attribute == 0);
        assert(values[y as int].value matches Value::Pos(p) && p == e + 1);
        // position of x in m1 is e
        assert(is_first_index(m1[a], x, e)) by {
            assert forall|j: int| 0 <= j < e implies m1[a][j] != x by {
                if m1[a][j] == x {
                    assert(m1[a][j] == m1[a][e]);
                }
            }
        }
        let c1 = choose|k: int| is_first_index(m1[a], x, k);
        assert(is_first_index(m1[a], x, c1));
        if c1 != e {
            assert(m1[a][c1] == m1[a][e]);
        }
        assert(position_in(values, m1, x) == Some(e));
        // position of x in m2 is not e
        assert(m2[a].contains(x));
        let c2 = choose|k: int| is_first_index(m2[a], x, k);
        let w = choose|k: int| 0 <= k < m2[a].len() && m2[a][k] == x;
        assert(is_first_index(m2[a], x, w)) by {
            assert forall|j: int| 0 <= j < w implies m2[a][j] != x by {
                if m2[a][j] == x {
                    assert(m2[a][j] == m2[a][w]);
                }
            }
        }
        assert(is_first_index(m2[a], x, c2));
        assert(c2 != e);
        assert(position_in(values, m2, x) == Some(c2));
        assert(position_in(values, m1, y) == Some(e));
        assert(position_in(values, m2, y) == Some(e));
        let c = Clue::Is(x, y);
        assert(clue_value(values, m1, c) == Some(true));
        assert(clue_value(values, m2, c) == Some(false));
        // the clue is offered
        assert(pair_clues(values, x as int, y as int)[0] == c);
        lemma_in_domain_universe(values, x as int, y as int, c);
        order.to_multiset_ensures();
        domain_universe(values).to_multiset_ensures();
        assert(domain_universe(values).to_multiset().count(c) > 0);
        assert(order.contains(c));
        let j = choose|j: int| 0 <= j < order.len() && order[j] == c;
        lemma_greedy_separates(values, start, order, m1, m2, j);
    }
}

proof fn lemma_filter_all(s: Seq<Seq<Seq<usize>>>, p: spec_fn(Seq<Seq<usize>>) -> bool)
    requires
        forall|i: int| 0 <= i < s.len() ==> p(#[trigger] s[i]),
    ensures
        s.filter(p) == s,
    decreases s.len(),
{
    if s.len() > 0 {
        let t = s.drop_last();
        assert(s =~= t.push(s.last()));
        t.lemma_filter_push(s.last(), p);
        assert forall|i: int| 0 <= i < t.len() implies p(#[trigger] t[i]) by {
            assert(t[i] == s[i]);
        }
        lemma_filter_all(t, p);
    } else {
        assert(s.filter(p).len() <= s.len()) by {
            s.lemma_filter_len(p);
        }
        assert(s.filter(p) =~= s);
    }
}

/// Some candidate of `surv` satisfies the clues accepted before the `k`-th
/// and fails the `k`-th.
pub open spec fn rules_out(values: Seq<AttributeValue>, surv: Seq<Seq<Seq<usize>>>, acc: Seq<Clue>, k: int) -> bool {
    exists|m: Seq<Seq<usize>>|
        #[trigger] surv.contains(m) && satisfies_all(values, m, acc.subrange(0, k)) && clue_value(
            values,
            m,
            acc[k],
        ) != Some(true)
}

/// Some candidate of `surv` satisfies the clues accepted up to the `k`-th.
pub open spec fn keeps_some(values: Seq<AttributeValue>, surv: Seq<Seq<Seq<usize>>>, acc: Seq<Clue>, k: int) -> bool {
    exists|m: Seq<Seq<usize>>| #[trigger] surv.contains(m) && satisfies_all(values, m, acc.subrange(0, k + 1))
}

#[verifier::spinoff_prover]
proof fn lemma_step_first(values: Seq<AttributeValue>, surv: Seq<Seq<Seq<usize>>>, c: Clue, acc: Seq<Clue>)
    requires
        acc.len() >= 1,
        acc[0] == c,
        surv.filter(holds_on(values, c)).len() != 0,
        surv.filter(holds_on(values, c)).len() != surv.len(),
    ensures
        rules_out(values, surv, acc, 0),
        keeps_some(values, surv, acc, 0),
{
    let p = holds_on(values, c);
    let f = surv.filter(p);
    if forall|i: int| 0 <= i < surv.len() ==> p(#[trigger] surv[i]) {
        lemma_filter_all(surv, p);
    }
    let i = choose|i: int| 0 <= i < surv.len() && !p(#[trigger] surv[i]);
    assert(surv.contains(surv[i]));
    assert(satisfies_all(values, surv[i], acc.subrange(0, 0)));
    let m = f[0];
    assert(f.contains(m));
    lemma_filter_member(surv, p, m);
    assert(acc.subrange(0, 1) =~= seq![c]);
    assert(satisfies_all(values, m, acc.subrange(0, 1)));
}

#[verifier::spinoff_prover]
proof fn lemma_step_later(
    values: Seq<AttributeValue>,
    surv: Seq<Seq<Seq<usize>>>,
    c: Clue,
    accf: Seq<Clue>,
    acc: Seq<Clue>,
    k: int,
)
    requires
        acc == seq![c] + accf,
        1 <= k < acc.len(),
        rules_out(values, surv.filter(holds_on(values, c)), accf, k - 1),
        keeps_some(values, surv.filter(holds_on(values, c)), accf, k - 1),
    ensures
        rules_out(values, surv, acc, k),
        keeps_some(values, surv, acc, k),
{
    let p = holds_on(values, c);
    let f = surv.filter(p);
    let m1 = choose|m: Seq<Seq<usize>>|
        #[trigger] f.contains(m) && satisfies_all(values, m, accf.subrange(0, k - 1))
            && clue_value(values, m, accf[k - 1]) != Some(true);
    lemma_filter_member(surv, p, m1);
    assert(acc[k] == accf[k - 1]);
    assert(satisfies_all(values, m1, acc.subrange(0, k))) by {
        assert forall|i: int| 0 <= i < k implies clue_value(values, m1, #[trigger] acc.subrange(0, k)[i]) == Some(true) by {
            if i > 0 {
                assert(acc.subrange(0, k)[i] == accf.subrange(0, k - 1)[i - 1]);
            }
        }
    }
    assert(surv.contains(m1));
    let m2 = choose|m: Seq<Seq<usize>>|
        #[trigger] f.contains(m) && satisfies_all(values, m, accf.subrange(0, k));
    lemma_filter_member(surv, p, m2);
    assert(satisfies_all(values, m2, acc.subrange(0, k + 1))) by {
        assert forall|i: int| 0 <= i < k + 1 implies clue_value(values, m2, #[trigger] acc.subrange(0, k + 1)[i]) == Some(true) by {
            if i > 0 {
                assert(acc.subrange(0, k + 1)[i] == accf.subrange(0, k)[i - 1]);
            }
        }
    }
    assert(surv.contains(m2));
}

/// The accepted clues are irredundant in their order: each one, given the
/// clues accepted before it, rules out some candidate and keeps some other.
pub proof fn greedy_irredundant(values: Seq<AttributeValue>, surv: Seq<Seq<Seq<usize>>>, clues: Seq<Clue>)
    ensures
        forall|k: int|
            0 <= k < greedy(values, surv, clues).1.len() ==> #[trigger] rules_out(
                values,
                surv,
                greedy(values, surv, clues).1,
                k,
            ),
        forall|k: int|
            0 <= k < greedy(values, surv, clues).1.len() ==> #[trigger] keeps_some(
                values,
                surv,
                greedy(values, surv, clues).1,
                k,
            ),
    decreases clues.len(),
{
    if surv.len() == 1 || clues.len() == 0 {
        assert(greedy(values, surv, clues).1 == Seq::<Clue>::empty());
    } else {
        let c = clues[0];
        let f = surv.filter(holds_on(values, c));
        let rest = clues.drop_first();
        if f.len() == 0 || f.len() == surv.len() {
            greedy_irredundant(values, surv, rest);
            assert(greedy(values, surv, clues) == greedy(values, surv, rest));
        } else {
            greedy_irredundant(values, f, rest);
            let accf = greedy(values, f, rest).1;
            let acc = greedy(values, surv, clues).1;
            assert(acc == seq![c] + accf);
            assert forall|k: int| 0 <= k < acc.len() implies #[trigger] rules_out(values, surv, acc, k) by {
                if k == 0 {
                    lemma_step_first(values, surv, c, acc);
                } else {
                    assert(rules_out(values, f, accf, k - 1));
                    assert(keeps_some(values, f, accf, k - 1));
                    lemma_step_later(values, surv, c, accf, acc, k);
                }
            }
            assert forall|k: int| 0 <= k < acc.len() implies #[trigger] keeps_some(values, surv, acc, k) by {
                if k == 0 {
                    lemma_step_first(values, surv, c, acc);
                } else {
                    assert(rules_out(values, f, accf, k - 1));
                    assert(keeps_some(values, f, accf, k - 1));
                    lemma_step_later(values, surv, c, accf, acc, k);
                }
            }
        }
    }
}

} // verus!
