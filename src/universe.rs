use vstd::prelude::*;

use crate::model::{
    clue_value, lemma_position_in_solution, matrix_view, position_in, solution_wf, AttributeValue,
    Clue,
};

verus! {

/// The clues generated for attribute pair `(a, b)` at entity `e`: `Is` when
/// the attributes differ; `Left` and `Right` against the neighbouring
/// entities that exist, when `a` is not the position axis.
pub open spec fn cell_clues(sol: Seq<Seq<usize>>, n: int, a: int, b: int, e: int) -> Seq<Clue> {
    let is_part = if a != b {
        seq![Clue::Is(sol[a][e], sol[b][e])]
    } else {
        Seq::empty()
    };
    let left_part = if a != 0 && e > 0 {
        seq![Clue::Left(sol[a][e - 1], sol[b][e])]
    } else {
        Seq::empty()
    };
    let right_part = if a != 0 && e < n - 1 {
        seq![Clue::Right(sol[a][e + 1], sol[b][e])]
    } else {
        Seq::empty()
    };
    is_part + left_part + right_part
}

/// The clues of pair `(a, b)` over entities `0..k`, in order.
pub open spec fn entity_run(sol: Seq<Seq<usize>>, n: int, a: int, b: int, k: int) -> Seq<Clue>
    decreases k,
{
    if k <= 0 {
        Seq::empty()
    } else {
        entity_run(sol, n, a, b, k - 1) + cell_clues(sol, n, a, b, k - 1)
    }
}

/// The clues of attribute `a` paired with attributes `0..k`, in order.
pub open spec fn pair_run(sol: Seq<Seq<usize>>, n: int, a: int, k: int) -> Seq<Clue>
    decreases k,
{
    if k <= 0 {
        Seq::empty()
    } else {
        pair_run(sol, n, a, k - 1) + entity_run(sol, n, a, k - 1, n)
    }
}

/// The clues of attributes `0..k` paired with attributes `0..n_attributes`.
pub open spec fn attribute_run(sol: Seq<Seq<usize>>, n_attributes: int, n: int, k: int) -> Seq<
    Clue,
>
    decreases k,
{
    if k <= 0 {
        Seq::empty()
    } else {
        attribute_run(sol, n_attributes, n, k - 1) + pair_run(sol, n, k - 1, n_attributes)
    }
}

/// The clue universe of a solution, in generation order.
pub open spec fn clue_universe(sol: Seq<Seq<usize>>, n_attributes: int, n: int) -> Seq<Clue> {
    attribute_run(sol, n_attributes, n, n_attributes)
}

/// Every clue true of `sol` in the solution's own order: for each ordered
/// attribute pair and each entity, `Is` across the two attributes, then
/// `Left` and `Right` against the entities before and after it.
pub fn gen_possible_clues(solution: &Vec<Vec<usize>>, n_attributes: usize, n_entities: usize) -> (r:
    Vec<Clue>)
    requires
        solution@.len() >= n_attributes,
        forall|a: int| 0 <= a < n_attributes ==> #[trigger] solution@[a]@.len() >= n_entities,
    ensures
        r@ == clue_universe(matrix_view(solution@), n_attributes as int, n_entities as int),
{
    let ghost sol = matrix_view(solution@);
    let ghost na = n_attributes as int;
    let ghost n = n_entities as int;
    let mut clues: Vec<Clue> = Vec::new();
    let mut attr_a: usize = 0;
    while attr_a < n_attributes
        invariant
            sol == matrix_view(solution@),
            na == n_attributes,
            n == n_entities,
            solution@.len() >= n_attributes,
            forall|a: int| 0 <= a < n_attributes ==> #[trigger] solution@[a]@.len() >= n_entities,
            attr_a <= n_attributes,
            clues@ == attribute_run(sol, na, n, attr_a as int),
        decreases n_attributes - attr_a,
    {
        let mut attr_b: usize = 0;
        while attr_b < n_attributes
            invariant
                sol == matrix_view(solution@),
                na == n_attributes,
                n == n_entities,
                solution@.len() >= n_attributes,
                forall|a: int| 0 <= a < n_attributes ==> #[trigger] solution@[a]@.len() >= n_entities,
                attr_a < n_attributes,
                attr_b <= n_attributes,
                clues@ == attribute_run(sol, na, n, attr_a as int) + pair_run(
                    sol,
                    n,
                    attr_a as int,
                    attr_b as int,
                ),
            decreases n_attributes - attr_b,
        {
            let mut entity: usize = 0;
            while entity < n_entities
                invariant
                    sol == matrix_view(solution@),
                    na == n_attributes,
                    n == n_entities,
                    solution@.len() >= n_attributes,
                    forall|a: int|
                        0 <= a < n_attributes ==> #[trigger] solution@[a]@.len() >= n_entities,
                    attr_a < n_attributes,
                    attr_b < n_attributes,
                    entity <= n_entities,
                    clues@ == attribute_run(sol, na, n, attr_a as int) + pair_run(
                        sol,
                        n,
                        attr_a as int,
                        attr_b as int,
                    ) + entity_run(sol, n, attr_a as int, attr_b as int, entity as int),
                decreases n_entities - entity,
            {
                let ghost before = clues@;
                let row_a = &solution[attr_a];
                let row_b = &solution[attr_b];
                assert(sol[attr_a as int] == row_a@);
                assert(sol[attr_b as int] == row_b@);
                assert(row_a@.len() >= n_entities);
                assert(row_b@.len() >= n_entities);
                if attr_a != attr_b {
                    clues.push(Clue::Is(row_a[entity], row_b[entity]));
                }
                if attr_a != 0 {
                    if entity > 0 {
                        clues.push(Clue::Left(row_a[entity - 1], row_b[entity]));
                    }
                    if entity < n_entities - 1 {
                        clues.push(Clue::Right(row_a[entity + 1], row_b[entity]));
                    }
                }
                assert(clues@ =~= before + cell_clues(
                    sol,
                    n,
                    attr_a as int,
                    attr_b as int,
                    entity as int,
                ));
                entity = entity + 1;
            }
            attr_b = attr_b + 1;
        }
        attr_a = attr_a + 1;
    }
    clues
}

} // verus!

verus! {

/// Both values of clue `c` have a position in `0..n` in `sol`.
pub open spec fn operands_in_range(
    values: Seq<AttributeValue>,
    sol: Seq<Seq<usize>>,
    n: int,
    c: Clue,
) -> bool {
    &&& position_in(values, sol, c.first()) matches Some(p) && 0 <= p < n
    &&& position_in(values, sol, c.second()) matches Some(q) && 0 <= q < n
}

/// Every clue of `s` holds of `sol`, and refers only to entities `0..n`.
pub open spec fn all_sound(values: Seq<AttributeValue>, sol: Seq<Seq<usize>>, n: int, s: Seq<Clue>) -> bool {
    forall|i: int|
        0 <= i < s.len() ==> clue_value(values, sol, #[trigger] s[i]) == Some(true)
            && operands_in_range(values, sol, n, s[i])
}

proof fn lemma_concat_sound(
    values: Seq<AttributeValue>,
    sol: Seq<Seq<usize>>,
    n: int,
    x: Seq<Clue>,
    y: Seq<Clue>,
)
    requires
        all_sound(values, sol, n, x),
        all_sound(values, sol, n, y),
    ensures
        all_sound(values, sol, n, x + y),
{
    assert forall|i: int| 0 <= i < (x + y).len() implies clue_value(values, sol, #[trigger] (x
        + y)[i]) == Some(true) && operands_in_range(values, sol, n, (x + y)[i]) by {
        if i < x.len() {
            assert((x + y)[i] == x[i]);
        } else {
            assert((x + y)[i] == y[i - x.len()]);
        }
    }
}

proof fn lemma_cell_sound(
    values: Seq<AttributeValue>,
    sol: Seq<Seq<usize>>,
    na: int,
    n: int,
    a: int,
    b: int,
    e: int,
)
    requires
        solution_wf(values, sol, na, n),
        0 <= a < na,
        0 <= b < na,
        0 <= e < n,
    ensures
        all_sound(values, sol, n, cell_clues(sol, n, a, b, e)),
{
    lemma_position_in_solution(values, sol, na, n, a, e);
    lemma_position_in_solution(values, sol, na, n, b, e);
    if e > 0 {
        lemma_position_in_solution(values, sol, na, n, a, e - 1);
    }
    if e < n - 1 {
        lemma_position_in_solution(values, sol, na, n, a, e + 1);
    }
    let is_part: Seq<Clue> = if a != b {
        seq![Clue::Is(sol[a][e], sol[b][e])]
    } else {
        Seq::empty()
    };
    let left_part: Seq<Clue> = if a != 0 && e > 0 {
        seq![Clue::Left(sol[a][e - 1], sol[b][e])]
    } else {
        Seq::empty()
    };
    let right_part: Seq<Clue> = if a != 0 && e < n - 1 {
        seq![Clue::Right(sol[a][e + 1], sol[b][e])]
    } else {
        Seq::empty()
    };
    assert(all_sound(values, sol, n, is_part));
    assert(all_sound(values, sol, n, left_part));
    assert(all_sound(values, sol, n, right_part));
    lemma_concat_sound(values, sol, n, is_part, left_part);
    lemma_concat_sound(values, sol, n, is_part + left_part, right_part);
}

proof fn lemma_entity_run_sound(
    values: Seq<AttributeValue>,
    sol: Seq<Seq<usize>>,
    na: int,
    n: int,
    a: int,
    b: int,
    k: int,
)
    requires
        solution_wf(values, sol, na, n),
        0 <= a < na,
        0 <= b < na,
        k <= n,
    ensures
        all_sound(values, sol, n, entity_run(sol, n, a, b, k)),
    decreases k,
{
    if k > 0 {
        lemma_entity_run_sound(values, sol, na, n, a, b, k - 1);
        lemma_cell_sound(values, sol, na, n, a, b, k - 1);
        lemma_concat_sound(
            values,
            sol,
            n,
            entity_run(sol, n, a, b, k - 1),
            cell_clues(sol, n, a, b, k - 1),
        );
    }
}

proof fn lemma_pair_run_sound(
    values: Seq<AttributeValue>,
    sol: Seq<Seq<usize>>,
    na: int,
    n: int,
    a: int,
    k: int,
)
    requires
        solution_wf(values, sol, na, n),
        0 <= a < na,
        k <= na,
    ensures
        all_sound(values, sol, n, pair_run(sol, n, a, k)),
    decreases k,
{
    if k > 0 {
        lemma_pair_run_sound(values, sol, na, n, a, k - 1);
        lemma_entity_run_sound(values, sol, na, n, a, k - 1, n);
        lemma_concat_sound(values, sol, n, pair_run(sol, n, a, k - 1), entity_run(sol, n, a, k - 1, n));
    }
}

proof fn lemma_attribute_run_sound(
    values: Seq<AttributeValue>,
    sol: Seq<Seq<usize>>,
    na: int,
    n: int,
    k: int,
)
    requires
        solution_wf(values, sol, na, n),
        k <= na,
    ensures
        all_sound(values, sol, n, attribute_run(sol, na, n, k)),
    decreases k,
{
    if k > 0 {
        lemma_attribute_run_sound(values, sol, na, n, k - 1);
        lemma_pair_run_sound(values, sol, na, n, k - 1, na);
        lemma_concat_sound(values, sol, n, attribute_run(sol, na, n, k - 1), pair_run(sol, n, k - 1, na));
    }
}

/// Soundness of generation: every clue of the universe of a well-formed
/// solution holds of that solution.
pub proof fn universe_sound(values: Seq<AttributeValue>, sol: Seq<Seq<usize>>, n_attributes: int, n: int)
    requires
        solution_wf(values, sol, n_attributes, n),
    ensures
        forall|i: int|
            0 <= i < clue_universe(sol, n_attributes, n).len() ==> clue_value(
                values,
                sol,
                #[trigger] clue_universe(sol, n_attributes, n)[i],
            ) == Some(true),
{
    lemma_attribute_run_sound(values, sol, n_attributes, n, n_attributes);
}

/// No clue of the universe refers to an entity before the first or after the
/// last: both values of every clue, `Left` and `Right` included, sit at a
/// position in `0..n`.
pub proof fn universe_in_range(values: Seq<AttributeValue>, sol: Seq<Seq<usize>>, n_attributes: int, n: int)
    requires
        solution_wf(values, sol, n_attributes, n),
    ensures
        forall|i: int|
            0 <= i < clue_universe(sol, n_attributes, n).len() ==> operands_in_range(
                values,
                sol,
                n,
                #[trigger] clue_universe(sol, n_attributes, n)[i],
            ),
{
    lemma_attribute_run_sound(values, sol, n_attributes, n, n_attributes);
}

} // verus!
