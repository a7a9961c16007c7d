use vstd::prelude::*;

use rand_seeder::SipRng;

use crate::connect::{places, solution_covers};
use crate::model::{matrix_view, solution_wf, Attribute, AttributeValue, Clue, PuzzleError, Value};
use crate::space::{arena_wf, block, get_attribute_values, get_solution, slot, some_pool_too_small};
use crate::mst::{clues_within, select_mst, spanning_forest};
use crate::random::shuffle;
use crate::universe::{clue_universe, gen_possible_clues, operands_in_range, universe_in_range};

verus! {

/// The spanning-forest selector: the clue universe of the solution, shuffled,
/// and the spanning forest kept from it in that order. The result is the
/// forest of some ordering of the universe.
pub fn select_mst_clues(
    values: &Vec<AttributeValue>,
    solution: &Vec<Vec<usize>>,
    n_attributes: usize,
    n_entities: usize,
    rng: &mut SipRng,
) -> (r: Vec<Clue>)
    requires
        solution_wf(values@, matrix_view(solution@), n_attributes as int, n_entities as int),
    ensures
        exists|order: Seq<Clue>|
            #[trigger] order.to_multiset() == clue_universe(
                matrix_view(solution@),
                n_attributes as int,
                n_entities as int,
            ).to_multiset() && r@ == spanning_forest(values@.len(), order),
{
    let ghost sol = matrix_view(solution@);
    proof {
        assert forall|a: int| 0 <= a < n_attributes implies #[trigger] solution@[a]@.len() >= n_entities by {
            assert(sol[a] == solution@[a]@);
        }
    }
    let mut clues = gen_possible_clues(solution, n_attributes, n_entities);
    let ghost universe = clues@;
    shuffle(&mut clues, rng);
    proof {
        universe_in_range(values@, sol, n_attributes as int, n_entities as int);
        assert forall|i: int| 0 <= i < clues@.len() implies (#[trigger] clues@[i]).first()
            < values@.len() && clues@[i].second() < values@.len() by {
            clues@.to_multiset_ensures();
            universe.to_multiset_ensures();
            assert(clues@.contains(clues@[i]));
            assert(clues@.to_multiset().count(clues@[i]) > 0);
            assert(universe.to_multiset().count(clues@[i]) > 0);
            let j = choose|j: int| 0 <= j < universe.len() && universe[j] == clues@[i];
            assert(operands_in_range(values@, sol, n_entities as int, universe[j]));
        }
        assert(clues_within(values@.len(), clues@));
    }
    let forest = select_mst(values.len(), &clues);
    proof {
        assert(clues@.to_multiset() == clue_universe(sol, n_attributes as int, n_entities as int).to_multiset());
    }
    forest
}

/// The attribute list has the position axis first and only there.
pub open spec fn attributes_wf(attributes: Seq<Attribute>) -> bool {
    &&& attributes.len() >= 1
    &&& attributes[0] is Pos
    &&& forall|a: int| 1 <= a < attributes.len() ==> #[trigger] attributes[a] is Str
}

proof fn lemma_block_entry(a: int, n: int, k: int, na: int)
    requires
        0 <= a < na,
        0 <= k < n,
        na * n <= usize::MAX,
    ensures
        block(a, n)[k] == slot(a, k, n),
        0 <= slot(a, k, n) < na * n,
{
    assert(0 <= a * n + k < na * n) by (nonlinear_arith)
        requires
            0 <= a < na,
            0 <= k < n,
    ;
}

proof fn lemma_generated_solution(
    values: Seq<AttributeValue>,
    attributes: Seq<Attribute>,
    pools: Seq<Vec<String>>,
    sol: Seq<Seq<usize>>,
    n: int,
)
    requires
        attributes_wf(attributes),
        arena_wf(values, attributes, pools, n),
        n >= 1,
        values.len() <= usize::MAX,
        sol.len() == attributes.len(),
        sol[0] == block(0, n),
        forall|a: int| 0 <= a < attributes.len() ==> (#[trigger] sol[a]).to_multiset() == block(a, n).to_multiset(),
    ensures
        solution_wf(values, sol, attributes.len() as int, n),
        solution_covers(values, sol, attributes.len() as int, n),
{
    let na = attributes.len() as int;
    assert forall|a: int| 0 <= a < na implies #[trigger] sol[a].len() == n && sol[a].no_duplicates() by {
        let b = block(a, n);
        b.to_multiset_ensures();
        sol[a].to_multiset_ensures();
        assert(b.no_duplicates()) by {
            assert forall|i: int, j: int| 0 <= i < b.len() && 0 <= j < b.len() && i != j implies b[i] != b[j] by {
                lemma_block_entry(a, n, i, na);
                lemma_block_entry(a, n, j, na);
            }
        }
        b.lemma_multiset_has_no_duplicates();
        sol[a].lemma_multiset_has_no_duplicates_conv();
    }
    assert forall|a: int, e: int| 0 <= a < na && 0 <= e < n implies exists|k: int|
        0 <= k < n && #[trigger] sol[a][e] == slot(a, k, n) by {
        let b = block(a, n);
        b.to_multiset_ensures();
        sol[a].to_multiset_ensures();
        assert(sol[a].contains(sol[a][e]));
        assert(sol[a].to_multiset().count(sol[a][e]) > 0);
        assert(b.contains(sol[a][e]));
        let k = choose|k: int| 0 <= k < b.len() && b[k] == sol[a][e];
        lemma_block_entry(a, n, k, na);
    }
    assert forall|a: int, e: int| 0 <= a < na && 0 <= e < n implies (#[trigger] sol[a][e]) < values.len()
        && values[sol[a][e] as int].attribute == a && (a >= 1 ==> values[sol[a][e] as int].value is Str) by {
        let k = choose|k: int| 0 <= k < n && #[trigger] sol[a][e] == slot(a, k, n);
        lemma_block_entry(a, n, k, na);
        assert(values[slot(a, k, n)].attribute == a);
        if a >= 1 {
            assert(attributes[a] is Str);
            let s = choose|s: Seq<String>|
                #[trigger] s.to_multiset() == pools[a]@.to_multiset() && forall|k2: int|
                    0 <= k2 < n ==> #[trigger] values[slot(a, k2, n)].value == Value::Str(s[k2]);
            assert(values[slot(a, k, n)].value == Value::Str(s[k]));
        }
    }
    assert forall|e: int| 0 <= e < n implies (values[#[trigger] sol[0][e] as int].value matches Value::Pos(p) && p == e + 1) by {
        lemma_block_entry(0, n, e, na);
        assert(sol[0][e] == slot(0, e, n));
    }
    assert forall|v: int| 0 <= v < values.len() implies #[trigger] places(sol, na, n, v) by {
        let a = v / n;
        let k = v % n;
        assert(v == a * n + k && 0 <= k < n && 0 <= a < na) by (nonlinear_arith)
            requires
                n >= 1,
                0 <= v < na * n,
                a == v / n,
                k == v % n,
        ;
        let b = block(a, n);
        lemma_block_entry(a, n, k, na);
        b.to_multiset_ensures();
        sol[a].to_multiset_ensures();
        assert(b.contains(b[k]));
        assert(b.to_multiset().count(b[k]) > 0);
        assert(sol[a].contains(b[k]));
        let e = choose|e: int| 0 <= e < sol[a].len() && sol[a][e] == b[k];
        assert(sol[a][e] == v);
    }
}

/// A puzzle: the value arena and a hidden solution over it, drawn from the
/// value pools. `DomainTooSmall` exactly when a categorical pool holds fewer
/// than `n_entities` values.
pub fn build_puzzle(
    attributes: &Vec<Attribute>,
    pools: &Vec<Vec<String>>,
    n_entities: usize,
    rng: &mut SipRng,
) -> (r: Result<(Vec<AttributeValue>, Vec<Vec<usize>>), PuzzleError>)
    requires
        attributes_wf(attributes@),
        pools@.len() == attributes@.len(),
        n_entities >= 1,
    ensures
        r is Err <==> some_pool_too_small(attributes@, pools@, n_entities as int),
        r is Err ==> r == Err::<(Vec<AttributeValue>, Vec<Vec<usize>>), PuzzleError>(
            PuzzleError::DomainTooSmall,
        ),
        r matches Ok((values, sol)) ==> arena_wf(values@, attributes@, pools@, n_entities as int)
            && solution_wf(values@, matrix_view(sol@), attributes@.len() as int, n_entities as int)
            && solution_covers(values@, matrix_view(sol@), attributes@.len() as int, n_entities as int),
{
    let values = match get_attribute_values(attributes, pools, n_entities, rng) {
        Ok(v) => v,
        Err(e) => {
            return Err(e);
        },
    };
    // the arena's length is a usize, which bounds every arena index below
    let n_values = values.len();
    let sol = get_solution(&values, attributes.len(), n_entities, rng);
    proof {
        let sv = matrix_view(sol@);
        assert forall|a: int| 0 <= a < attributes@.len() implies (#[trigger] sv[a]).to_multiset() == block(a, n_entities as int).to_multiset() by {
            assert(sv[a] == sol@[a]@);
        }
        assert(sv[0] == sol@[0]@);
        assert(values@.len() == n_values);
        lemma_generated_solution(values@, attributes@, pools@, sv, n_entities as int);
    }
    Ok((values, sol))
}

} // verus!
