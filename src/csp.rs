use vstd::prelude::*;

use itertools::Itertools;

use rand_seeder::SipRng;

use crate::model::{clue_value, matrix_view, position_in, AttributeValue, Clue, PuzzleError, Value};
use crate::oracle::evaluate;
use crate::random::shuffle;

verus! {

/// `p` orders the items of `s`: same length, same items with the same
/// multiplicities.
pub open spec fn is_arrangement(p: Seq<usize>, s: Seq<usize>) -> bool {
    p.len() == s.len() && p.to_multiset() == s.to_multiset()
}

/// Relies on `Itertools::permutations` with `k` equal to the number of
/// items: every ordering of the items is produced, each ordering of the
/// positions once, so distinct items give distinct orderings.
#[verifier::external_body]
fn all_orderings(items: &Vec<usize>) -> (r: Vec<Vec<usize>>)
    ensures
        forall|i: int| 0 <= i < r@.len() ==> is_arrangement(#[trigger] r@[i]@, items@),
        items@.no_duplicates() ==> matrix_view(r@).no_duplicates(),
        forall|p: Seq<usize>|
            #[trigger] is_arrangement(p, items@) ==> exists|i: int|
                0 <= i < r@.len() && #[trigger] r@[i]@ == p,
{
    items.iter().cloned().permutations(items.len()).collect()
}

/// `n!`
pub open spec fn factorial(n: nat) -> nat
    decreases n,
{
    if n == 0 {
        1
    } else {
        n * factorial((n - 1) as nat)
    }
}

/// The number of candidates over the first `k` attributes: the product of
/// the factorials of the domain sizes of attributes `1..k`.
pub open spec fn space_size(domains: Seq<Seq<usize>>, k: int) -> nat
    decreases k,
{
    if k <= 1 {
        1
    } else {
        space_size(domains, k - 1) * factorial(domains[k - 1].len())
    }
}

/// `m` is a candidate over the first `k` attributes: row 0 is the position
/// axis as given, every other row orders its attribute's domain.
pub open spec fn is_candidate_upto(domains: Seq<Seq<usize>>, m: Seq<Seq<usize>>, k: int) -> bool {
    &&& m.len() == k
    &&& k >= 1
    &&& m[0] == domains[0]
    &&& forall|a: int| 1 <= a < k ==> is_arrangement(#[trigger] m[a], domains[a])
}

/// `m` is a candidate over all attributes.
pub open spec fn is_candidate(domains: Seq<Seq<usize>>, m: Seq<Seq<usize>>) -> bool {
    is_candidate_upto(domains, m, domains.len() as int)
}

/// The views of a list of candidate matrices.
pub open spec fn candidates_view(cs: Seq<Vec<Vec<usize>>>) -> Seq<Seq<Seq<usize>>> {
    cs.map_values(|m: Vec<Vec<usize>>| matrix_view(m@))
}

/// `m` is one of `cs`.
pub open spec fn listed(cs: Seq<Seq<Seq<usize>>>, m: Seq<Seq<usize>>) -> bool {
    exists|k: int| 0 <= k < cs.len() && cs[k] == m
}

/// Candidate `x` extends one of `cands` before index `i`, or candidate `i`
/// with one of the orderings before index `j`.
pub open spec fn built_before(
    cands: Seq<Seq<Seq<usize>>>,
    perms: Seq<Seq<usize>>,
    x: Seq<Seq<usize>>,
    i: int,
    j: int,
) -> bool {
    exists|i2: int, j2: int|
        0 <= i2 <= i && 0 <= j2 < perms.len() && (i2 < i || j2 < j) && x == #[trigger] cands[i2].push(
            #[trigger] perms[j2],
        )
}

/// The view of `domains`.
pub open spec fn domains_view(domains: Seq<Vec<usize>>) -> Seq<Seq<usize>> {
    matrix_view(domains)
}

/// A copy of a candidate matrix.
pub fn copy_matrix(m: &Vec<Vec<usize>>) -> (r: Vec<Vec<usize>>)
    ensures
        matrix_view(r@) == matrix_view(m@),
{
    let mut r: Vec<Vec<usize>> = Vec::new();
    let mut i: usize = 0;
    while i < m.len()
        invariant
            i <= m@.len(),
            r@.len() == i,
            matrix_view(r@) == matrix_view(m@.subrange(0, i as int)),
        decreases m@.len() - i,
    {
        let ghost before = r@;
        let row = m[i].clone();
        assert(row@ =~= m@[i as int]@);
        let ghost rv = row@;
        r.push(row);
        proof {
            let next = m@.subrange(0, i + 1);
            assert forall|k: int| 0 <= k < i + 1 implies matrix_view(r@)[k] == matrix_view(next)[k] by {
                if k < i {
                    assert(r@[k] == before[k]);
                    assert(matrix_view(before)[k] == matrix_view(m@.subrange(0, i as int))[k]);
                } else {
                    assert(r@[k]@ == rv);
                }
            }
            assert(matrix_view(r@) =~= matrix_view(next));
        }
        i = i + 1;
    }
    assert(m@.subrange(0, m@.len() as int) =~= m@);
    r
}

proof fn lemma_factorial_positive(n: nat)
    ensures
        factorial(n) >= 1,
    decreases n,
{
    if n > 0 {
        lemma_factorial_positive((n - 1) as nat);
        assert(n * factorial((n - 1) as nat) >= 1) by (nonlinear_arith)
            requires
                n >= 1,
                factorial((n - 1) as nat) >= 1,
        ;
    }
}

proof fn lemma_space_size_grows(domains: Seq<Seq<usize>>, k: int, j: int)
    requires
        1 <= k <= j,
    ensures
        space_size(domains, k) <= space_size(domains, j),
        space_size(domains, k) >= 1,
    decreases j,
{
    if j > k {
        lemma_space_size_grows(domains, k, j - 1);
        lemma_factorial_positive(domains[j - 1].len());
        let s = space_size(domains, j - 1);
        let f = factorial(domains[j - 1].len());
        assert(s <= s * f) by (nonlinear_arith)
            requires
                f >= 1,
        ;
    } else if k > 1 {
        lemma_space_size_grows(domains, k - 1, k - 1);
        lemma_factorial_positive(domains[k - 1].len());
        let s = space_size(domains, k - 1);
        let f = factorial(domains[k - 1].len());
        assert(s * f >= 1) by (nonlinear_arith)
            requires
                f >= 1,
                s >= 1,
        ;
    }
}

/// `n!`, or `None` when it exceeds `limit`.
fn factorial_within(n: usize, limit: usize) -> (r: Option<usize>)
    ensures
        match r {
            Some(f) => f == factorial(n as nat) && f <= limit,
            None => factorial(n as nat) > limit,
        },
{
    let mut f: usize = 1;
    let mut i: usize = 0;
    if limit < 1 {
        proof {
            lemma_factorial_positive(n as nat);
        }
        return None;
    }
    while i < n
        invariant
            i <= n,
            f == factorial(i as nat),
            f <= limit,
        decreases n - i,
    {
        proof {
            lemma_factorial_positive(i as nat);
        }
        let next = f.checked_mul(i + 1);
        proof {
            let fi = factorial(i as nat);
            assert(factorial((i + 1) as nat) == (i + 1) * fi);
            assert((i + 1) * fi == fi * (i + 1)) by (nonlinear_arith);
        }
        match next {
            Some(g) if g <= limit => {
                f = g;
            },
            _ => {
                proof {
                    lemma_factorial_grows((i + 1) as nat, n as nat);
                }
                return None;
            },
        }
        i = i + 1;
    }
    Some(f)
}

proof fn lemma_factorial_grows(i: nat, n: nat)
    requires
        i <= n,
    ensures
        factorial(i) <= factorial(n),
    decreases n,
{
    if i < n {
        lemma_factorial_grows(i, (n - 1) as nat);
        lemma_factorial_positive((n - 1) as nat);
        let f = factorial((n - 1) as nat);
        assert(f <= n * f) by (nonlinear_arith)
            requires
                n >= 1,
        ;
    }
}

/// The size of the candidate space when it is within `limit`.
fn space_size_within(domains: &Vec<Vec<usize>>, limit: usize) -> (r: Option<usize>)
    requires
        domains@.len() >= 1,
    ensures
        match r {
            Some(s) => s == space_size(domains_view(domains@), domains@.len() as int) && s <= limit,
            None => space_size(domains_view(domains@), domains@.len() as int) > limit,
        },
{
    let ghost d = domains_view(domains@);
    let mut total: usize = 1;
    if limit < 1 {
        proof {
            lemma_space_size_grows(d, 1, domains@.len() as int);
        }
        return None;
    }
    let mut a: usize = 1;
    while a < domains.len()
        invariant
            d == domains_view(domains@),
            1 <= a <= domains@.len(),
            total == space_size(d, a as int),
            total <= limit,
        decreases domains@.len() - a,
    {
        assert(d[a as int] == domains@[a as int]@);
        let f = factorial_within(domains[a].len(), limit);
        match f {
            Some(f) => {
                match total.checked_mul(f) {
                    Some(t) if t <= limit => {
                        total = t;
                    },
                    _ => {
                        proof {
                            lemma_space_size_grows(d, a + 1, domains@.len() as int);
                        }
                        return None;
                    },
                }
            },
            None => {
                proof {
                    lemma_space_size_grows(d, a as int, a as int);
                    let s = space_size(d, a as int);
                    let g = factorial(d[a as int].len());
                    assert(s * g >= g) by (nonlinear_arith)
                        requires
                            s >= 1,
                    ;
                    lemma_space_size_grows(d, a + 1, domains@.len() as int);
                }
                return None;
            },
        }
        a = a + 1;
    }
    Some(total)
}

/// Every candidate over the attribute domains: row 0 is the position axis as
/// given, every other row is one ordering of its attribute's domain.
/// `CandidateSpaceTooLarge` when there would be more than `limit`.
pub fn enumerate_candidates(domains: &Vec<Vec<usize>>, limit: usize) -> (r: Result<
    Vec<Vec<Vec<usize>>>,
    PuzzleError,
>)
    requires
        domains@.len() >= 1,
        forall|a: int| 0 <= a < domains@.len() ==> (#[trigger] domains@[a])@.no_duplicates(),
    ensures
        r is Err <==> space_size(domains_view(domains@), domains@.len() as int) > limit,
        r matches Ok(cs) ==> candidates_view(cs@).no_duplicates(),
        r is Err ==> r == Err::<Vec<Vec<Vec<usize>>>, PuzzleError>(
            PuzzleError::CandidateSpaceTooLarge,
        ),
        r matches Ok(cs) ==> forall|k: int|
            0 <= k < cs@.len() ==> is_candidate(
                domains_view(domains@),
                #[trigger] candidates_view(cs@)[k],
            ),
        r matches Ok(cs) ==> forall|m: Seq<Seq<usize>>|
            #[trigger] is_candidate(domains_view(domains@), m) ==> listed(candidates_view(cs@), m),
{
    let ghost d = domains_view(domains@);
    match space_size_within(domains, limit) {
        None => {
            return Err(PuzzleError::CandidateSpaceTooLarge);
        },
        Some(_) => {},
    }
    let mut cands: Vec<Vec<Vec<usize>>> = Vec::new();
    let mut first: Vec<Vec<usize>> = Vec::new();
    let row0 = domains[0].clone();
    assert(row0@ =~= d[0]);
    first.push(row0);
    cands.push(first);
    proof {
        assert(candidates_view(cands@)[0] =~= seq![d[0]]);
        assert forall|m: Seq<Seq<usize>>| #[trigger] is_candidate_upto(d, m, 1) implies listed(
            candidates_view(cands@),
            m,
        ) by {
            assert(m =~= seq![d[0]]);
            assert(candidates_view(cands@)[0] == m);
        }
    }
    let mut a: usize = 1;
    while a < domains.len()
        invariant
            d == domains_view(domains@),
            1 <= a <= domains@.len(),
            forall|k: int|
                0 <= k < candidates_view(cands@).len() ==> is_candidate_upto(
                    d,
                    #[trigger] candidates_view(cands@)[k],
                    a as int,
                ),
            forall|m: Seq<Seq<usize>>| #[trigger]
                is_candidate_upto(d, m, a as int) ==> listed(candidates_view(cands@), m),
            forall|b: int| 0 <= b < domains@.len() ==> (#[trigger] domains@[b])@.no_duplicates(),
            candidates_view(cands@).no_duplicates(),
        decreases domains@.len() - a,
    {
        let perms = all_orderings(&domains[a]);
        assert(domains@[a as int]@ == d[a as int]);
        let ghost pv = matrix_view(perms@);
        let mut next: Vec<Vec<Vec<usize>>> = Vec::new();
        let mut i: usize = 0;
        while i < cands.len()
            invariant
                d == domains_view(domains@),
                1 <= a < domains@.len(),
                forall|k: int|
                    0 <= k < candidates_view(cands@).len() ==> is_candidate_upto(
                        d,
                        #[trigger] candidates_view(cands@)[k],
                        a as int,
                    ),
                forall|k: int| 0 <= k < perms@.len() ==> is_arrangement(#[trigger] perms@[k]@, d[a as int]),
                i <= cands@.len(),
                forall|k: int|
                    0 <= k < candidates_view(next@).len() ==> is_candidate_upto(
                        d,
                        #[trigger] candidates_view(next@)[k],
                        a + 1,
                    ),
                forall|i2: int, j2: int|
                    0 <= i2 < i && 0 <= j2 < perms@.len() ==> listed(
                        candidates_view(next@),
                        #[trigger] candidates_view(cands@)[i2].push(#[trigger] perms@[j2]@),
                    ),
                pv == matrix_view(perms@),
                pv.no_duplicates(),
                candidates_view(cands@).no_duplicates(),
                candidates_view(next@).no_duplicates(),
                forall|k: int|
                    0 <= k < candidates_view(next@).len() ==> #[trigger] built_before(
                        candidates_view(cands@),
                        pv,
                        candidates_view(next@)[k],
                        i as int,
                        0,
                    ),
            decreases cands@.len() - i,
        {
            let mut j: usize = 0;
            while j < perms.len()
                invariant
                    d == domains_view(domains@),
                    1 <= a < domains@.len(),
                    forall|k: int|
                        0 <= k < candidates_view(cands@).len() ==> is_candidate_upto(
                            d,
                            #[trigger] candidates_view(cands@)[k],
                            a as int,
                        ),
                    forall|k: int|
                        0 <= k < perms@.len() ==> is_arrangement(#[trigger] perms@[k]@, d[a as int]),
                    i < cands@.len(),
                    j <= perms@.len(),
                    forall|k: int|
                        0 <= k < candidates_view(next@).len() ==> is_candidate_upto(
                            d,
                            #[trigger] candidates_view(next@)[k],
                            a + 1,
                        ),
                    forall|i2: int, j2: int|
                        ((0 <= i2 < i && 0 <= j2 < perms@.len()) || (i2 == i && 0 <= j2 < j))
                            ==> listed(
                            candidates_view(next@),
                            #[trigger] candidates_view(cands@)[i2].push(#[trigger] perms@[j2]@),
                        ),
                    pv == matrix_view(perms@),
                    pv.no_duplicates(),
                    candidates_view(cands@).no_duplicates(),
                    candidates_view(next@).no_duplicates(),
                    forall|k: int|
                        0 <= k < candidates_view(next@).len() ==> #[trigger] built_before(
                            candidates_view(cands@),
                            pv,
                            candidates_view(next@)[k],
                            i as int,
                            j as int,
                        ),
                decreases perms@.len() - j,
            {
                let ghost before = candidates_view(next@);
                let mut m = copy_matrix(&cands[i]);
                let row = perms[j].clone();
                assert(row@ =~= perms@[j as int]@);
                let ghost rv = row@;
                let ghost mv = matrix_view(m@);
                m.push(row);
                assert(matrix_view(m@) =~= mv.push(rv));
                next.push(m);
                proof {
                    let x = candidates_view(cands@)[i as int].push(perms@[j as int]@);
                    assert(candidates_view(cands@)[i as int] == matrix_view(cands@[i as int]@));
                    assert(candidates_view(next@) =~= before.push(x));
                    let ci = candidates_view(cands@)[i as int];
                    assert(is_candidate_upto(d, ci, a as int));
                    assert forall|b: int| 1 <= b < a + 1 implies is_arrangement(#[trigger] x[b], d[b]) by {
                        if b < a {
                            assert(x[b] == ci[b]);
                        } else {
                            assert(x[b] == perms@[j as int]@);
                        }
                    }
                    assert(is_candidate_upto(d, x, a + 1));
                    let cv = candidates_view(cands@);
                    assert(pv[j as int] == perms@[j as int]@);
                    assert forall|k: int| 0 <= k < before.len() implies before[k] != x by {
                        assert(built_before(cv, pv, before[k], i as int, j as int));
                        let (i2, j2) = choose|i2: int, j2: int|
                            0 <= i2 <= i && 0 <= j2 < pv.len() && (i2 < i || j2 < j) && before[k]
                                == #[trigger] cv[i2].push(#[trigger] pv[j2]);
                        if before[k] == x {
                            assert(before[k].drop_last() =~= cv[i2]);
                            assert(x.drop_last() =~= cv[i as int]);
                            assert(before[k].last() == pv[j2]);
                            assert(x.last() == pv[j as int]);
                        }
                    }
                    assert(candidates_view(next@).no_duplicates()) by {
                        let nv = candidates_view(next@);
                        assert forall|k1: int, k2: int| 0 <= k1 < nv.len() && 0 <= k2 < nv.len() && k1 != k2 implies nv[k1] != nv[k2] by {
                            if k1 < before.len() && k2 < before.len() {
                                assert(nv[k1] == before[k1] && nv[k2] == before[k2]);
                            } else if k1 < before.len() {
                                assert(nv[k1] == before[k1] && nv[k2] == x);
                            } else if k2 < before.len() {
                                assert(nv[k2] == before[k2] && nv[k1] == x);
                            }
                        }
                    }
                    assert forall|k: int| 0 <= k < candidates_view(next@).len() implies #[trigger] built_before(
                        cv,
                        pv,
                        candidates_view(next@)[k],
                        i as int,
                        j + 1,
                    ) by {
                        if k < before.len() {
                            assert(candidates_view(next@)[k] == before[k]);
                            assert(built_before(cv, pv, before[k], i as int, j as int));
                            let (i2, j2) = choose|i2: int, j2: int|
                                0 <= i2 <= i && 0 <= j2 < pv.len() && (i2 < i || j2 < j) && before[k]
                                    == #[trigger] cv[i2].push(#[trigger] pv[j2]);
                            assert(cv[i2].push(pv[j2]) == before[k]);
                        } else {
                            assert(candidates_view(next@)[k] == x);
                            assert(cv[i as int].push(pv[j as int]) == x);
                        }
                    }
                    assert forall|i2: int, j2: int|
                        ((0 <= i2 < i && 0 <= j2 < perms@.len()) || (i2 == i && 0 <= j2 < j + 1))
                            implies listed(
                            candidates_view(next@),
                            #[trigger] candidates_view(cands@)[i2].push(#[trigger] perms@[j2]@),
                        ) by {
                        let y = candidates_view(cands@)[i2].push(perms@[j2]@);
                        if i2 == i && j2 == j {
                            assert(candidates_view(next@)[before.len() as int] == y);
                        } else {
                            assert(listed(before, y));
                            let k = choose|k: int| 0 <= k < before.len() && before[k] == y;
                            assert(candidates_view(next@)[k] == y);
                        }
                    }
                }
                j = j + 1;
            }
            proof {
                let cv = candidates_view(cands@);
                assert forall|k: int| 0 <= k < candidates_view(next@).len() implies #[trigger] built_before(
                    cv,
                    pv,
                    candidates_view(next@)[k],
                    i + 1,
                    0,
                ) by {
                    let y = candidates_view(next@)[k];
                    assert(built_before(cv, pv, y, i as int, j as int));
                    let (i2, j2) = choose|i2: int, j2: int|
                        0 <= i2 <= i && 0 <= j2 < pv.len() && (i2 < i || j2 < j) && y
                            == #[trigger] cv[i2].push(#[trigger] pv[j2]);
                    assert(cv[i2].push(pv[j2]) == y);
                }
            }
            i = i + 1;
        }
        proof {
            assert forall|m: Seq<Seq<usize>>| #[trigger] is_candidate_upto(d, m, a + 1) implies listed(
                candidates_view(next@),
                m,
            ) by {
                let p = m.drop_last();
                assert forall|b: int| 1 <= b < a implies is_arrangement(#[trigger] p[b], d[b]) by {
                    assert(p[b] == m[b]);
                }
                assert(is_candidate_upto(d, p, a as int));
                assert(listed(candidates_view(cands@), p));
                let i2 = choose|k: int| 0 <= k < candidates_view(cands@).len() && candidates_view(cands@)[k] == p;
                assert(is_arrangement(m[a as int], d[a as int]));
                assert(is_arrangement(m[a as int], domains@[a as int]@));
                let j2 = choose|k: int| 0 <= k < perms@.len() && #[trigger] perms@[k]@ == m[a as int];
                assert(m =~= candidates_view(cands@)[i2].push(perms@[j2]@));
            }
        }
        cands = next;
        a = a + 1;
    }
    Ok(cands)
}

/// The clues over a pair of arena values `x`, `y`: `Is` when their
/// attributes differ; `Left` and `Right` when `x` is categorical and the two
/// values are distinct.
pub open spec fn pair_clues(values: Seq<AttributeValue>, x: int, y: int) -> Seq<Clue> {
    let is_part = if values[x].attribute != values[y].attribute {
        seq![Clue::Is(x as usize, y as usize)]
    } else {
        Seq::empty()
    };
    let side_part = if values[x].attribute != 0 && x != y {
        seq![Clue::Left(x as usize, y as usize), Clue::Right(x as usize, y as usize)]
    } else {
        Seq::empty()
    };
    is_part + side_part
}

/// The clues of value `x` paired with values `0..k`, in order.
pub open spec fn partner_run(values: Seq<AttributeValue>, x: int, k: int) -> Seq<Clue>
    decreases k,
{
    if k <= 0 {
        Seq::empty()
    } else {
        partner_run(values, x, k - 1) + pair_clues(values, x, k - 1)
    }
}

/// The clues of values `0..k` paired with every value, in order.
pub open spec fn domain_run(values: Seq<AttributeValue>, k: int) -> Seq<Clue>
    decreases k,
{
    if k <= 0 {
        Seq::empty()
    } else {
        domain_run(values, k - 1) + partner_run(values, k - 1, values.len() as int)
    }
}

/// The clue universe over the attribute values themselves, tied to no
/// solution.
pub open spec fn domain_universe(values: Seq<AttributeValue>) -> Seq<Clue> {
    domain_run(values, values.len() as int)
}

/// Every clue over pairs of arena values, in the order of the pairs.
pub fn domain_clues(values: &Vec<AttributeValue>) -> (r: Vec<Clue>)
    ensures
        r@ == domain_universe(values@),
        forall|i: int|
            0 <= i < r@.len() ==> (#[trigger] r@[i]).first() < values@.len() && r@[i].second()
                < values@.len(),
{
    let n = values.len();
    let mut clues: Vec<Clue> = Vec::new();
    let mut x: usize = 0;
    while x < n
        invariant
            n == values@.len(),
            x <= n,
            clues@ == domain_run(values@, x as int),
            forall|i: int| 0 <= i < clues@.len() ==> (#[trigger] clues@[i]).first() < n && clues@[i].second() < n,
        decreases n - x,
    {
        let mut y: usize = 0;
        while y < n
            invariant
                n == values@.len(),
                x < n,
                y <= n,
                clues@ == domain_run(values@, x as int) + partner_run(values@, x as int, y as int),
                forall|i: int| 0 <= i < clues@.len() ==> (#[trigger] clues@[i]).first() < n && clues@[i].second() < n,
            decreases n - y,
        {
            let ghost before = clues@;
            if values[x].attribute != values[y].attribute {
                clues.push(Clue::Is(x, y));
            }
            if values[x].attribute != 0 && x != y {
                clues.push(Clue::Left(x, y));
                clues.push(Clue::Right(x, y));
            }
            assert(clues@ =~= before + pair_clues(values@, x as int, y as int));
            y = y + 1;
        }
        x = x + 1;
    }
    clues
}

/// The candidates of which clue `c` holds.
pub open spec fn holds_on(values: Seq<AttributeValue>, c: Clue) -> spec_fn(Seq<Seq<usize>>) -> bool {
    |m: Seq<Seq<usize>>| clue_value(values, m, c) == Some(true)
}

/// The greedy selection over `clues` in order, from candidates `surv`: a
/// clue is accepted when the candidates of which it holds are neither none
/// nor all of them, and they become the survivors; selection stops once one
/// candidate is left. The survivors and the accepted clues.
pub open spec fn greedy(
    values: Seq<AttributeValue>,
    surv: Seq<Seq<Seq<usize>>>,
    clues: Seq<Clue>,
) -> (Seq<Seq<Seq<usize>>>, Seq<Clue>)
    decreases clues.len(),
{
    if surv.len() == 1 || clues.len() == 0 {
        (surv, Seq::empty())
    } else {
        let f = surv.filter(holds_on(values, clues[0]));
        let rest = clues.drop_first();
        if f.len() == 0 || f.len() == surv.len() {
            greedy(values, surv, rest)
        } else {
            let (s, acc) = greedy(values, f, rest);
            (s, seq![clues[0]] + acc)
        }
    }
}

/// Every clue of `clues` has a value on every candidate of `cands`.
pub open spec fn all_evaluable(
    values: Seq<AttributeValue>,
    cands: Seq<Seq<Seq<usize>>>,
    clues: Seq<Clue>,
) -> bool {
    forall|i: int, k: int|
        0 <= i < cands.len() && 0 <= k < clues.len() ==> clue_value(
            values,
            #[trigger] cands[i],
            #[trigger] clues[k],
        ) is Some
}

/// The candidates of `cands` of which clue `c` holds.
fn filter_candidates(values: &Vec<AttributeValue>, cands: &Vec<Vec<Vec<usize>>>, c: &Clue) -> (r:
    Vec<Vec<Vec<usize>>>)
    requires
        forall|i: int|
            0 <= i < cands@.len() ==> clue_value(values@, #[trigger] candidates_view(cands@)[i], *c) is Some,
    ensures
        candidates_view(r@) == candidates_view(cands@).filter(holds_on(values@, *c)),
{
    let ghost p = holds_on(values@, *c);
    let mut kept: Vec<Vec<Vec<usize>>> = Vec::new();
    let mut i: usize = 0;
    while i < cands.len()
        invariant
            p == holds_on(values@, *c),
            i <= cands@.len(),
            forall|j: int|
                0 <= j < cands@.len() ==> clue_value(values@, #[trigger] candidates_view(cands@)[j], *c) is Some,
            candidates_view(kept@) == candidates_view(cands@).subrange(0, i as int).filter(p),
        decreases cands@.len() - i,
    {
        let ghost prefix = candidates_view(cands@).subrange(0, i as int);
        let ghost mi = candidates_view(cands@)[i as int];
        proof {
            assert(candidates_view(cands@).subrange(0, i + 1) =~= prefix.push(mi));
            prefix.lemma_filter_push(mi, p);
            assert(mi == matrix_view(cands@[i as int]@));
        }
        let holds = evaluate(values, &cands[i], c);
        match holds {
            Ok(true) => {
                let ghost before = candidates_view(kept@);
                let m = copy_matrix(&cands[i]);
                kept.push(m);
                assert(candidates_view(kept@) =~= before.push(mi));
            },
            _ => {},
        }
        i = i + 1;
    }
    assert(candidates_view(cands@).subrange(0, cands@.len() as int) =~= candidates_view(cands@));
    kept
}

pub(crate) proof fn lemma_filter_member(s: Seq<Seq<Seq<usize>>>, p: spec_fn(Seq<Seq<usize>>) -> bool, m: Seq<Seq<usize>>)
    ensures
        s.filter(p).contains(m) <==> (s.contains(m) && p(m)),
{
    if s.filter(p).contains(m) {
        s.lemma_filter_contains_rev(p, m);
        let i = choose|i: int| 0 <= i < s.filter(p).len() && s.filter(p)[i] == m;
        s.lemma_filter_pred(p, i);
    }
    if s.contains(m) && p(m) {
        let i = choose|i: int| 0 <= i < s.len() && s[i] == m;
        s.lemma_filter_contains(p, i);
    }
}

/// The greedy selection over `clues` in order, from candidates `cands`:
/// the survivor and the accepted clues when one candidate is left,
/// `NoUniqueSolution` when the clues run out first.
pub fn select_from(values: &Vec<AttributeValue>, cands: Vec<Vec<Vec<usize>>>, clues: &Vec<Clue>) -> (r:
    Result<(Vec<Vec<Vec<usize>>>, Vec<Clue>), PuzzleError>)
    requires
        all_evaluable(values@, candidates_view(cands@), clues@),
    ensures
        r is Ok <==> greedy(values@, candidates_view(cands@), clues@).0.len() == 1,
        r matches Ok((s, acc)) ==> candidates_view(s@) == greedy(
            values@,
            candidates_view(cands@),
            clues@,
        ).0 && acc@ == greedy(values@, candidates_view(cands@), clues@).1,
        r is Err ==> r == Err::<(Vec<Vec<Vec<usize>>>, Vec<Clue>), PuzzleError>(
            PuzzleError::NoUniqueSolution,
        ),
{
    let ghost v = values@;
    let ghost start = candidates_view(cands@);
    let mut surv = cands;
    let mut accepted: Vec<Clue> = Vec::new();
    let mut k: usize = 0;
    proof {
        assert(clues@.subrange(0, clues@.len() as int) =~= clues@);
        assert(accepted@ + greedy(v, start, clues@).1 =~= greedy(v, start, clues@).1);
    }
    while k < clues.len() && surv.len() != 1
        invariant
            v == values@,
            k <= clues@.len(),
            forall|m: Seq<Seq<usize>>| #[trigger] candidates_view(surv@).contains(m) ==> start.contains(m),
            all_evaluable(v, start, clues@),
            greedy(v, start, clues@).0 == greedy(v, candidates_view(surv@), clues@.subrange(k as int, clues@.len() as int)).0,
            greedy(v, start, clues@).1 == accepted@ + greedy(v, candidates_view(surv@), clues@.subrange(k as int, clues@.len() as int)).1,
        decreases clues@.len() - k,
    {
        let ghost rest = clues@.subrange(k as int, clues@.len() as int);
        let ghost sv = candidates_view(surv@);
        let c = clues[k];
        proof {
            assert(rest[0] == c);
            assert(rest.drop_first() =~= clues@.subrange(k + 1, clues@.len() as int));
            assert forall|i: int| 0 <= i < surv@.len() implies clue_value(v, #[trigger] candidates_view(surv@)[i], c) is Some by {
                assert(sv.contains(sv[i]));
                let j = choose|j: int| 0 <= j < start.len() && start[j] == sv[i];
                assert(clues@[k as int] == c);
            }
        }
        let kept = filter_candidates(values, &surv, &c);
        if kept.len() == 0 || kept.len() == surv.len() {
        } else {
            proof {
                assert forall|m: Seq<Seq<usize>>| #[trigger] candidates_view(kept@).contains(m) implies start.contains(m) by {
                    lemma_filter_member(sv, holds_on(v, c), m);
                }
                assert(accepted@.push(c) + greedy(v, candidates_view(kept@), rest.drop_first()).1 =~= accepted@ + (seq![c] + greedy(v, candidates_view(kept@), rest.drop_first()).1));
            }
            surv = kept;
            accepted.push(c);
        }
        k = k + 1;
    }
    proof {
        let rest = clues@.subrange(k as int, clues@.len() as int);
        assert(greedy(v, candidates_view(surv@), rest).1 == Seq::<Clue>::empty());
        assert(accepted@ + Seq::<Clue>::empty() =~= accepted@);
    }
    if surv.len() == 1 {
        Ok((surv, accepted))
    } else {
        Err(PuzzleError::NoUniqueSolution)
    }
}

/// Every clue of `acc` holds of candidate `m`.
pub open spec fn satisfies_all(values: Seq<AttributeValue>, m: Seq<Seq<usize>>, acc: Seq<Clue>) -> bool {
    forall|i: int| 0 <= i < acc.len() ==> clue_value(values, m, #[trigger] acc[i]) == Some(true)
}

/// Replaying the accepted clues: the survivors of the greedy selection are
/// exactly the starting candidates of which every accepted clue holds, and
/// every accepted clue is one of the clues offered.
pub proof fn greedy_replay(values: Seq<AttributeValue>, surv: Seq<Seq<Seq<usize>>>, clues: Seq<Clue>)
    ensures
        forall|m: Seq<Seq<usize>>|
            #[trigger] greedy(values, surv, clues).0.contains(m) <==> (surv.contains(m)
                && satisfies_all(values, m, greedy(values, surv, clues).1)),
        forall|i: int|
            0 <= i < greedy(values, surv, clues).1.len() ==> clues.contains(
                #[trigger] greedy(values, surv, clues).1[i],
            ),
    decreases clues.len(),
{
    if surv.len() == 1 || clues.len() == 0 {
        assert(greedy(values, surv, clues) == (surv, Seq::<Clue>::empty()));
        assert forall|m: Seq<Seq<usize>>| surv.contains(m) implies satisfies_all(values, m, Seq::<Clue>::empty()) by {
        }
    } else {
        let c = clues[0];
        let f = surv.filter(holds_on(values, c));
        let rest = clues.drop_first();
        if f.len() == 0 || f.len() == surv.len() {
            greedy_replay(values, surv, rest);
            assert(greedy(values, surv, clues) == greedy(values, surv, rest));
            assert forall|i: int| 0 <= i < greedy(values, surv, clues).1.len() implies clues.contains(
                #[trigger] greedy(values, surv, clues).1[i],
            ) by {
                let x = greedy(values, surv, clues).1[i];
                assert(rest.contains(x));
                let j = choose|j: int| 0 <= j < rest.len() && rest[j] == x;
                assert(clues[j + 1] == x);
            }
        } else {
            greedy_replay(values, f, rest);
            let (sf, accf) = greedy(values, f, rest);
            let acc = seq![c] + accf;
            assert(greedy(values, surv, clues) == (sf, acc));
            assert forall|m: Seq<Seq<usize>>| #[trigger] sf.contains(m) <==> (surv.contains(m)
                && satisfies_all(values, m, acc)) by {
                lemma_filter_member(surv, holds_on(values, c), m);
                if satisfies_all(values, m, acc) {
                    assert forall|i: int| 0 <= i < accf.len() implies clue_value(values, m, #[trigger] accf[i]) == Some(true) by {
                        assert(acc[i + 1] == accf[i]);
                    }
                    assert(acc[0] == c);
                }
                if f.contains(m) && satisfies_all(values, m, accf) {
                    assert forall|i: int| 0 <= i < acc.len() implies clue_value(values, m, #[trigger] acc[i]) == Some(true) by {
                        if i > 0 {
                            assert(acc[i] == accf[i - 1]);
                        }
                    }
                }
            }
            assert forall|i: int| 0 <= i < acc.len() implies clues.contains(#[trigger] acc[i]) by {
                if i == 0 {
                    assert(clues[0] == c);
                } else {
                    let x = accf[i - 1];
                    assert(acc[i] == x);
                    assert(rest.contains(x));
                    let j = choose|j: int| 0 <= j < rest.len() && rest[j] == x;
                    assert(clues[j + 1] == x);
                }
            }
        }
    }
}

/// The attribute domains partition the arena: each domain lists, without
/// repeats, values of its own attribute, and each value lies in the domain
/// of its attribute. Domain 0 lists the positions `1, 2, ...` in order; the
/// values of the other attributes are categorical.
pub open spec fn domains_wf(values: Seq<AttributeValue>, domains: Seq<Seq<usize>>) -> bool {
    &&& domains.len() >= 1
    &&& forall|a: int| 0 <= a < domains.len() ==> (#[trigger] domains[a]).no_duplicates()
    &&& forall|a: int| 0 <= a < domains.len() ==> (#[trigger] domains[a]).len() == domains[0].len()
    &&& forall|a: int, k: int|
        0 <= a < domains.len() && 0 <= k < domains[a].len() ==> (#[trigger] domains[a][k])
            < values.len() && values[domains[a][k] as int].attribute == a
    &&& forall|v: int|
        0 <= v < values.len() ==> (#[trigger] values[v]).attribute < domains.len()
            && domains[values[v].attribute as int].contains(v as usize)
    &&& forall|v: int| 0 <= v < values.len() ==> ((#[trigger] values[v]).value matches Value::Pos(p) ==> p >= 1)
    &&& forall|v: int| 0 <= v < values.len() && (#[trigger] values[v]).attribute >= 1 ==> values[v].value is Str
    &&& forall|e: int|
        0 <= e < domains[0].len() ==> (values[#[trigger] domains[0][e] as int].value matches Value::Pos(
            p,
        ) && p == e + 1)
}

proof fn lemma_candidate_places(values: Seq<AttributeValue>, domains: Seq<Seq<usize>>, m: Seq<Seq<usize>>, v: usize)
    requires
        domains_wf(values, domains),
        is_candidate(domains, m),
        v < values.len(),
    ensures
        position_in(values, m, v) is Some,
{
    let a = values[v as int].attribute as int;
    assert(domains[a].contains(v));
    if a >= 1 {
        assert(is_arrangement(m[a], domains[a]));
        m[a].to_multiset_ensures();
        domains[a].to_multiset_ensures();
        assert(domains[a].to_multiset().count(v) > 0);
        assert(m[a].to_multiset().count(v) > 0);
        assert(m[a].contains(v));
    }
}

/// The constraint selector: enumerate every candidate over the domains, shuffle
/// the clue universe over the attribute values, and accept clues greedily
/// until one candidate is left. `CandidateSpaceTooLarge` exactly when the
/// space exceeds `limit`; otherwise, whatever the shuffle, one survivor and
/// the accepted clues, which, replayed against the whole candidate space,
/// leave exactly that survivor.
pub fn select_csp(
    values: &Vec<AttributeValue>,
    domains: &Vec<Vec<usize>>,
    limit: usize,
    rng: &mut SipRng,
) -> (r: Result<(Vec<Vec<Vec<usize>>>, Vec<Clue>), PuzzleError>)
    requires
        domains_wf(values@, domains_view(domains@)),
    ensures
        r == Err::<(Vec<Vec<Vec<usize>>>, Vec<Clue>), PuzzleError>(
            PuzzleError::CandidateSpaceTooLarge,
        ) <==> space_size(domains_view(domains@), domains@.len() as int) > limit,
        r is Err ==> r == Err::<(Vec<Vec<Vec<usize>>>, Vec<Clue>), PuzzleError>(
            PuzzleError::CandidateSpaceTooLarge,
        ),
        r matches Ok((s, acc)) ==> s@.len() == 1 && forall|m: Seq<Seq<usize>>|
            (#[trigger] is_candidate(domains_view(domains@), m) && satisfies_all(values@, m, acc@))
                <==> m == candidates_view(s@)[0],
        r matches Ok((s, acc)) ==> forall|i: int|
            0 <= i < acc@.len() ==> domain_universe(values@).contains(#[trigger] acc@[i]),
{
    let ghost d = domains_view(domains@);
    proof {
        assert forall|a: int| 0 <= a < domains@.len() implies (#[trigger] domains@[a])@.no_duplicates() by {
            assert(d[a] == domains@[a]@);
        }
    }
    let cands = match enumerate_candidates(domains, limit) {
        Ok(c) => c,
        Err(e) => {
            return Err(e);
        },
    };
    let ghost start = candidates_view(cands@);
    let mut clues = domain_clues(values);
    let ghost universe = clues@;
    shuffle(&mut clues, rng);
    proof {
        assert forall|k: int| 0 <= k < clues@.len() implies universe.contains(#[trigger] clues@[k]) by {
            clues@.to_multiset_ensures();
            universe.to_multiset_ensures();
            assert(clues@.contains(clues@[k]));
            assert(clues@.to_multiset().count(clues@[k]) > 0);
            assert(universe.to_multiset().count(clues@[k]) > 0);
        }
        assert forall|i: int, k: int|
            0 <= i < start.len() && 0 <= k < clues@.len() implies clue_value(
                values@,
                #[trigger] start[i],
                #[trigger] clues@[k],
            ) is Some by {
            let c = clues@[k];
            assert(universe.contains(c));
            let j = choose|j: int| 0 <= j < universe.len() && universe[j] == c;
            assert(is_candidate(d, start[i]));
            lemma_candidate_places(values@, d, start[i], c.first());
            lemma_candidate_places(values@, d, start[i], c.second());
        }
    }
    let result = select_from(values, cands, &clues);
    proof {
        crate::csp_laws::greedy_unique(values@, d, start, clues@);
        greedy_replay(values@, start, clues@);
        let (gs, gacc) = greedy(values@, start, clues@);
        if result is Ok {
            assert forall|m: Seq<Seq<usize>>|
                #[trigger] is_candidate(d, m) && satisfies_all(values@, m, gacc) <==> m == gs[0] by {
                assert(gs.contains(gs[0]));
                if is_candidate(d, m) {
                    assert(listed(start, m));
                    let k = choose|k: int| 0 <= k < start.len() && start[k] == m;
                    assert(start.contains(m));
                }
                if m == gs[0] {
                    assert(start.contains(m));
                    let k = choose|k: int| 0 <= k < start.len() && start[k] == m;
                    assert(is_candidate(d, start[k]));
                }
                if gs.contains(m) {
                    let k = choose|k: int| 0 <= k < gs.len() && gs[k] == m;
                    assert(k == 0);
                }
            }
            assert forall|i: int| 0 <= i < gacc.len() implies domain_universe(values@).contains(#[trigger] gacc[i]) by {
                assert(clues@.contains(gacc[i]));
                let k = choose|k: int| 0 <= k < clues@.len() && clues@[k] == gacc[i];
                assert(universe.contains(clues@[k]));
            }
        }
    }
    result
}

} // verus!
