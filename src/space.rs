use vstd::prelude::*;

use itertools::Itertools;
use rand_seeder::SipRng;

use crate::model::{Attribute, AttributeValue, PuzzleError, Value};
use crate::random::shuffle;


verus! {

/// The arena index of the `k`-th value of attribute `a` when each attribute
/// holds `n` values.
pub open spec fn slot(a: int, k: int, n: int) -> int {
    a * n + k
}

proof fn lemma_slot_before(a: int, k: int, b: int, n: int)
    requires
        0 <= a < b,
        0 <= k < n,
    ensures
        slot(a, k, n) < b * n,
{
    assert(a * n + k < b * n) by (nonlinear_arith)
        requires
            0 <= a < b,
            0 <= k < n,
    ;
}

/// The attribute list read from its source: the token `POS` stands for the
/// position axis, every other line names a categorical attribute.
pub fn get_attributes(lines: &Vec<String>) -> (r: Vec<Attribute>)
    ensures
        r@.len() == lines@.len(),
        forall|i: int|
            0 <= i < lines@.len() ==> #[trigger] r@[i] == if lines@[i]@ == "POS"@ {
                Attribute::Pos
            } else {
                Attribute::Str(lines@[i])
            },
{
    let pos = String::from_str("POS");
    let mut attributes: Vec<Attribute> = Vec::new();
    let mut i: usize = 0;
    while i < lines.len()
        invariant
            i <= lines@.len(),
            pos@ == "POS"@,
            attributes@.len() == i,
            forall|j: int|
                0 <= j < i ==> #[trigger] attributes@[j] == if lines@[j]@ == "POS"@ {
                    Attribute::Pos
                } else {
                    Attribute::Str(lines@[j])
                },
        decreases lines@.len() - i,
    {
        if lines[i] == pos {
            attributes.push(Attribute::Pos);
        } else {
            attributes.push(Attribute::Str(lines[i].clone()));
        }
        i = i + 1;
    }
    attributes
}

/// Some categorical attribute has a pool with fewer than `n` values.
pub open spec fn some_pool_too_small(attributes: Seq<Attribute>, pools: Seq<Vec<String>>, n: int) -> bool {
    exists|a: int| 0 <= a < attributes.len() && attributes[a] is Str && #[trigger] pools[a]@.len() < n
}

/// The arena of `attributes.len()` blocks of `n` values: block `a` holds
/// positions `1..=n` for the position axis, and otherwise the first `n`
/// values of an arrangement of pool `a`.
pub open spec fn arena_wf(
    r: Seq<AttributeValue>,
    attributes: Seq<Attribute>,
    pools: Seq<Vec<String>>,
    n: int,
) -> bool {
    &&& r.len() == attributes.len() * n
    &&& forall|a: int, k: int|
        0 <= a < attributes.len() && 0 <= k < n ==> #[trigger] r[slot(a, k, n)].attribute == a
    &&& forall|a: int, k: int|
        0 <= a < attributes.len() && 0 <= k < n && attributes[a] is Pos ==> (#[trigger] r[slot(
            a,
            k,
            n,
        )].value matches Value::Pos(p) && p == k + 1)
    &&& forall|a: int|
        0 <= a < attributes.len() && #[trigger] attributes[a] is Str ==> exists|s: Seq<String>|
            #[trigger] s.to_multiset() == pools[a]@.to_multiset() && forall|k: int|
                0 <= k < n ==> #[trigger] r[slot(a, k, n)].value == Value::Str(s[k])
}

/// The value arena: for each attribute in order, `n_entities` values. The
/// position axis gets `1..=n_entities`; a categorical attribute gets the
/// first `n_entities` values of its pool after a shuffle.
/// `DomainTooSmall` when a categorical pool holds fewer than `n_entities`.
pub fn get_attribute_values(
    attributes: &Vec<Attribute>,
    pools: &Vec<Vec<String>>,
    n_entities: usize,
    rng: &mut SipRng,
) -> (r: Result<Vec<AttributeValue>, PuzzleError>)
    requires
        pools@.len() == attributes@.len(),
    ensures
        r is Err <==> some_pool_too_small(attributes@, pools@, n_entities as int),
        r is Err ==> r == Err::<Vec<AttributeValue>, PuzzleError>(PuzzleError::DomainTooSmall),
        r matches Ok(vals) ==> arena_wf(vals@, attributes@, pools@, n_entities as int),
{
    let ghost n = n_entities as int;
    let ghost pools0 = pools@;
    let mut values: Vec<AttributeValue> = Vec::new();
    let mut a: usize = 0;
    while a < attributes.len()
        invariant
            n == n_entities,
            pools0 == pools@,
            pools0.len() == attributes@.len(),
            a <= attributes@.len(),
            !some_pool_too_small(attributes@.subrange(0, a as int), pools0, n),
            values@.len() == a * n,
            forall|b: int, k: int|
                0 <= b < a && 0 <= k < n ==> #[trigger] values@[slot(b, k, n)].attribute == b,
            forall|b: int, k: int|
                0 <= b < a && 0 <= k < n && attributes@[b] is Pos ==> (#[trigger] values@[slot(
                    b,
                    k,
                    n,
                )].value matches Value::Pos(p) && p == k + 1),
            forall|b: int|
                0 <= b < a && #[trigger] attributes@[b] is Str ==> exists|s: Seq<String>|
                    #[trigger] s.to_multiset() == pools0[b]@.to_multiset() && forall|k: int|
                        0 <= k < n ==> #[trigger] values@[slot(b, k, n)].value == Value::Str(s[k]),
        decreases attributes@.len() - a,
    {
        let ghost before = values@;
        let source = &pools[a];
        let mut pool: Vec<String> = Vec::new();
        let mut i: usize = 0;
        while i < source.len()
            invariant
                i <= source@.len(),
                pool@ == source@.subrange(0, i as int),
            decreases source@.len() - i,
        {
            pool.push(source[i].clone());
            i = i + 1;
            assert(pool@ =~= source@.subrange(0, i as int));
        }
        assert(pool@ =~= pools0[a as int]@);
        match &attributes[a] {
            Attribute::Pos => {},
            Attribute::Str(_) => {
                shuffle(&mut pool, rng);
                if pool.len() < n_entities {
                    proof {
                        vstd::seq_lib::to_multiset_len(pool@);
                        vstd::seq_lib::to_multiset_len(pools0[a as int]@);
                        assert(attributes@[a as int] is Str && pools0[a as int]@.len() < n);
                        assert(some_pool_too_small(attributes@, pools0, n));
                    }
                    return Err(PuzzleError::DomainTooSmall);
                }
            },
        }
        let mut k: usize = 0;
        while k < n_entities
            invariant
                n == n_entities,
                k <= n_entities,
                values@.len() == a * n + k,
                values@.subrange(0, a * n) == before,
                attributes@[a as int] is Str ==> pool@.len() >= n,
                attributes@[a as int] is Str ==> pool@.to_multiset() == pools0[a as int]@.to_multiset(),
                a < attributes@.len(),
                forall|j: int| 0 <= j < k ==> #[trigger] values@[a * n + j].attribute == a,
                forall|j: int|
                    0 <= j < k && attributes@[a as int] is Pos ==> (#[trigger] values@[a * n
                        + j].value matches Value::Pos(p) && p == j + 1),
                forall|j: int|
                    0 <= j < k && attributes@[a as int] is Str ==> #[trigger] values@[a * n
                        + j].value == Value::Str(pool@[j]),
            decreases n_entities - k,
        {
            let value = match &attributes[a] {
                Attribute::Pos => Value::Pos(k + 1),
                Attribute::Str(_) => Value::Str(pool[k].clone()),
            };
            values.push(AttributeValue { attribute: a, value });
            k = k + 1;
        }
        proof {
            assert((a + 1) * n == a * n + n) by (nonlinear_arith);
            assert(values@.len() == (a + 1) * n);
            if attributes@[a as int] is Str {
                vstd::seq_lib::to_multiset_len(pool@);
                vstd::seq_lib::to_multiset_len(pools0[a as int]@);
            }
            assert forall|j: int|
                0 <= j < a + 1 && #[trigger] attributes@.subrange(0, a + 1)[j] is Str implies pools0[j]@.len() >= n by {
                if j < a {
                    assert(attributes@.subrange(0, a as int)[j] == attributes@.subrange(0, a + 1)[j]);
                }
            }
            assert forall|b: int, k: int|
                0 <= b < a + 1 && 0 <= k < n implies #[trigger] values@[slot(b, k, n)].attribute == b by {
                if b < a {
                    lemma_slot_before(b, k, a as int, n);
                    assert(values@[slot(b, k, n)] == before[slot(b, k, n)]);
                } else {
                    assert(slot(b, k, n) == a * n + k);
                }
            }
            assert forall|b: int, k: int|
                0 <= b < a + 1 && 0 <= k < n && attributes@[b] is Pos implies (#[trigger] values@[slot(
                    b,
                    k,
                    n,
                )].value matches Value::Pos(p) && p == k + 1) by {
                if b < a {
                    lemma_slot_before(b, k, a as int, n);
                    assert(values@[slot(b, k, n)] == before[slot(b, k, n)]);
                } else {
                    assert(slot(b, k, n) == a * n + k);
                }
            }
            assert forall|b: int|
                0 <= b < a + 1 && #[trigger] attributes@[b] is Str implies exists|s: Seq<String>|
                    #[trigger] s.to_multiset() == pools0[b]@.to_multiset() && forall|k: int|
                        0 <= k < n ==> #[trigger] values@[slot(b, k, n)].value == Value::Str(s[k]) by {
                if b < a {
                    let s = choose|s: Seq<String>|
                        #[trigger] s.to_multiset() == pools0[b]@.to_multiset() && forall|k: int|
                            0 <= k < n ==> #[trigger] before[slot(b, k, n)].value == Value::Str(s[k]);
                    assert forall|k: int| 0 <= k < n implies #[trigger] values@[slot(b, k, n)].value
                        == Value::Str(s[k]) by {
                        lemma_slot_before(b, k, a as int, n);
                        assert(values@[slot(b, k, n)] == before[slot(b, k, n)]);
                    }
                } else {
                    assert forall|k: int| 0 <= k < n implies #[trigger] values@[slot(b, k, n)].value
                        == Value::Str(pool@[k]) by {
                        assert(slot(b, k, n) == a * n + k);
                    }
                }
            }
        }
        a = a + 1;
    }
    Ok(values)
}

/// Relies on `Itertools::chunks` over the indices `0..len`: consecutive runs
/// of `size` indices, the last one shorter when `size` does not divide `len`.
#[verifier::external_body]
fn index_chunks(len: usize, size: usize) -> (r: Vec<Vec<usize>>)
    requires
        size >= 1,
    ensures
        r@.len() == (len + size - 1) as int / size as int,
        forall|i: int|
            0 <= i < r@.len() ==> (#[trigger] r@[i])@.len() == if (i + 1) * size <= len {
                size as int
            } else {
                len - i * size
            },
        forall|i: int, k: int|
            0 <= i < r@.len() && 0 <= k < r@[i]@.len() ==> #[trigger] r@[i]@[k] == i * size + k,
{
    let mut out: Vec<Vec<usize>> = Vec::new();
    for chunk in &(0..len).chunks(size) {
        out.push(chunk.collect());
    }
    out
}

/// The arena indices of attribute `a`'s block, in arena order.
pub open spec fn block(a: int, n: int) -> Seq<usize> {
    Seq::new(n as nat, |k: int| slot(a, k, n) as usize)
}

/// The hidden solution: row `a` holds the arena indices of attribute `a`'s
/// block, one per entity. Row 0, the position axis, keeps arena order; every
/// other row is shuffled.
pub fn get_solution(
    attribute_values: &Vec<AttributeValue>,
    n_attributes: usize,
    n_entities: usize,
    rng: &mut SipRng,
) -> (r: Vec<Vec<usize>>)
    requires
        n_entities >= 1,
        attribute_values@.len() == n_attributes * n_entities,
    ensures
        r@.len() == n_attributes,
        n_attributes >= 1 ==> r@[0]@ == block(0, n_entities as int),
        forall|a: int|
            0 <= a < n_attributes ==> (#[trigger] r@[a])@.to_multiset() == block(
                a,
                n_entities as int,
            ).to_multiset(),
{
    let ghost n = n_entities as int;
    let chunks = index_chunks(attribute_values.len(), n_entities);
    proof {
        let na = n_attributes as int;
        assert((na * n + n - 1) / n == na) by (nonlinear_arith)
            requires
                n >= 1,
                na >= 0,
        ;
    }
    let mut solution: Vec<Vec<usize>> = Vec::new();
    let mut idx: usize = 0;
    while idx < chunks.len()
        invariant
            n == n_entities,
            n >= 1,
            chunks@.len() == n_attributes,
            attribute_values@.len() == n_attributes * n_entities,
            forall|i: int|
                0 <= i < chunks@.len() ==> (#[trigger] chunks@[i])@.len() == if (i + 1) * n
                    <= attribute_values@.len() {
                    n
                } else {
                    attribute_values@.len() - i * n
                },
            forall|i: int, k: int|
                0 <= i < chunks@.len() && 0 <= k < chunks@[i]@.len() ==> #[trigger] chunks@[i]@[k]
                    == i * n + k,
            idx <= chunks@.len(),
            solution@.len() == idx,
            idx >= 1 ==> solution@[0]@ == block(0, n),
            forall|a: int|
                0 <= a < idx ==> (#[trigger] solution@[a])@.to_multiset() == block(a, n).to_multiset(),
        decreases chunks@.len() - idx,
    {
        let mut chunk = chunks[idx].clone();
        proof {
            let i = idx as int;
            let na = n_attributes as int;
            assert((i + 1) * n <= na * n) by (nonlinear_arith)
                requires
                    i < na,
                    n >= 1,
            ;
            assert(chunk@ =~= block(i, n));
        }
        if idx > 0 {
            shuffle(&mut chunk, rng);
        }
        solution.push(chunk);
        idx = idx + 1;
    }
    solution
}

} // verus!
