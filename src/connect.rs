use vstd::prelude::*;

use crate::model::{solution_wf, AttributeValue, Clue};
use crate::mst::{
    component_count, component_labels, edge_of, forest_connects, forest_size, join, spanning_forest,
};
use crate::universe::{attribute_run, cell_clues, clue_universe, entity_run, pair_run};

verus! {

pub(crate) proof fn lemma_contains_concat(x: Seq<Clue>, y: Seq<Clue>, c: Clue)
    ensures
        (x.contains(c) || y.contains(c)) ==> (x + y).contains(c),
{
    if x.contains(c) {
        let i = choose|i: int| 0 <= i < x.len() && x[i] == c;
        assert((x + y)[i] == c);
    } else if y.contains(c) {
        let i = choose|i: int| 0 <= i < y.len() && y[i] == c;
        assert((x + y)[x.len() + i] == c);
    }
}

proof fn lemma_entity_run_contains(sol: Seq<Seq<usize>>, n: int, a: int, b: int, k: int, e: int, c: Clue)
    requires
        0 <= e < k,
        cell_clues(sol, n, a, b, e).contains(c),
    ensures
        entity_run(sol, n, a, b, k).contains(c),
    decreases k,
{
    if e < k - 1 {
        lemma_entity_run_contains(sol, n, a, b, k - 1, e, c);
    }
    lemma_contains_concat(entity_run(sol, n, a, b, k - 1), cell_clues(sol, n, a, b, k - 1), c);
}

proof fn lemma_pair_run_contains(sol: Seq<Seq<usize>>, n: int, a: int, k: int, b: int, c: Clue)
    requires
        0 <= b < k,
        entity_run(sol, n, a, b, n).contains(c),
    ensures
        pair_run(sol, n, a, k).contains(c),
    decreases k,
{
    if b < k - 1 {
        lemma_pair_run_contains(sol, n, a, k - 1, b, c);
    }
    lemma_contains_concat(pair_run(sol, n, a, k - 1), entity_run(sol, n, a, k - 1, n), c);
}

proof fn lemma_attribute_run_contains(sol: Seq<Seq<usize>>, na: int, n: int, k: int, a: int, c: Clue)
    requires
        0 <= a < k,
        pair_run(sol, n, a, na).contains(c),
    ensures
        attribute_run(sol, na, n, k).contains(c),
    decreases k,
{
    if a < k - 1 {
        lemma_attribute_run_contains(sol, na, n, k - 1, a, c);
    }
    lemma_contains_concat(attribute_run(sol, na, n, k - 1), pair_run(sol, n, k - 1, na), c);
}

/// Clue `c` of cell `(a, b, e)` belongs to the universe.
proof fn lemma_in_universe(sol: Seq<Seq<usize>>, na: int, n: int, a: int, b: int, e: int, c: Clue)
    requires
        0 <= a < na,
        0 <= b < na,
        0 <= e < n,
        cell_clues(sol, n, a, b, e).contains(c),
    ensures
        clue_universe(sol, na, n).contains(c),
{
    lemma_entity_run_contains(sol, n, a, b, n, e, c);
    lemma_pair_run_contains(sol, n, a, na, b, c);
    lemma_attribute_run_contains(sol, na, n, na, a, c);
}

/// Nodes that share a label keep sharing it as further clues are added.
proof fn lemma_labels_keep(nn: nat, ds: Seq<Clue>, k: int, i: int, j: int)
    requires
        0 <= k <= ds.len(),
        0 <= i < nn,
        0 <= j < nn,
        component_labels(nn, ds.subrange(0, k))[i] == component_labels(nn, ds.subrange(0, k))[j],
    ensures
        component_labels(nn, ds)[i] == component_labels(nn, ds)[j],
    decreases ds.len(),
{
    if k == ds.len() {
        assert(ds.subrange(0, k) =~= ds);
    } else {
        let prev = ds.drop_last();
        assert(prev.subrange(0, k) =~= ds.subrange(0, k));
        lemma_labels_keep(nn, prev, k, i, j);
        crate::mst::lemma_labels_len(nn, prev);
    }
}

/// The two values of a clue in range share a label.
proof fn lemma_edge_linked(nn: nat, ds: Seq<Clue>, c: Clue)
    requires
        ds.contains(c),
        c.first() < nn,
        c.second() < nn,
    ensures
        component_labels(nn, ds)[c.first() as int] == component_labels(nn, ds)[c.second() as int],
{
    let k = choose|k: int| 0 <= k < ds.len() && ds[k] == c;
    let p = ds.subrange(0, k + 1);
    assert(p.drop_last() =~= ds.subrange(0, k));
    assert(p.last() == c);
    crate::mst::lemma_labels_len(nn, ds.subrange(0, k));
    let (x, y) = edge_of(c);
    assert(component_labels(nn, p) == join(component_labels(nn, ds.subrange(0, k)), x, y));
    lemma_labels_keep(nn, ds, k + 1, x, y);
}

/// With at least two attributes, the clue universe of a well-formed solution
/// links every value that the solution places to every other.
pub proof fn universe_connected(
    values: Seq<AttributeValue>,
    sol: Seq<Seq<usize>>,
    na: int,
    n: int,
    order: Seq<Clue>,
)
    requires
        solution_wf(values, sol, na, n),
        na >= 2,
        order.to_multiset() == clue_universe(sol, na, n).to_multiset(),
    ensures
        forall|a: int, e: int, a2: int, e2: int|
            0 <= a < na && 0 <= e < n && 0 <= a2 < na && 0 <= e2 < n ==> component_labels(
                values.len(),
                order,
            )[#[trigger] sol[a][e] as int] == component_labels(
                values.len(),
                order,
            )[#[trigger] sol[a2][e2] as int],
{
    let nn = values.len();
    let u = order;
    lemma_order_contains(sol, na, n, order);
    let l = component_labels(nn, u);
    assert forall|a: int, e: int| 0 <= a < na && 0 <= e < n implies l[#[trigger] sol[a][e] as int]
        == l[sol[0][e] as int] by {
        if a == 0 {
        } else {
        let c = Clue::Is(sol[a][e], sol[0][e]);
        assert(cell_clues(sol, n, a, 0, e)[0] == c);
        lemma_in_universe(sol, na, n, a, 0, e, c);
        assert(u.contains(c));
        assert(sol[a][e] < nn && sol[0][e] < nn);
        lemma_edge_linked(nn, u, c);
        }
    }
    assert forall|e: int| 0 <= e < n implies l[#[trigger] sol[0][e] as int] == l[sol[0][0] as int] by {
        lemma_chain(values, sol, na, n, e, order);
    }
}

proof fn lemma_order_contains(sol: Seq<Seq<usize>>, na: int, n: int, order: Seq<Clue>)
    requires
        order.to_multiset() == clue_universe(sol, na, n).to_multiset(),
    ensures
        forall|c: Clue| #[trigger] clue_universe(sol, na, n).contains(c) ==> order.contains(c),
{
    assert forall|c: Clue| #[trigger] clue_universe(sol, na, n).contains(c) implies order.contains(c) by {
        order.to_multiset_ensures();
        clue_universe(sol, na, n).to_multiset_ensures();
        assert(clue_universe(sol, na, n).to_multiset().count(c) > 0);
        assert(order.to_multiset().count(c) > 0);
    }
}

proof fn lemma_chain(
    values: Seq<AttributeValue>,
    sol: Seq<Seq<usize>>,
    na: int,
    n: int,
    e: int,
    order: Seq<Clue>,
)
    requires
        solution_wf(values, sol, na, n),
        na >= 2,
        0 <= e < n,
        forall|c: Clue| #[trigger] clue_universe(sol, na, n).contains(c) ==> order.contains(c),
    ensures
        component_labels(values.len(), order)[sol[0][e] as int] == component_labels(
            values.len(),
            order,
        )[sol[0][0] as int],
    decreases e,
{
    if e > 0 {
        let nn = values.len();
        let u = order;
        lemma_chain(values, sol, na, n, e - 1, order);
        let left = Clue::Left(sol[1][e - 1], sol[0][e]);
        assert(cell_clues(sol, n, 1, 0, e)[1] == left);
        lemma_in_universe(sol, na, n, 1, 0, e, left);
        assert(u.contains(left));
        lemma_edge_linked(nn, u, left);
        let is = Clue::Is(sol[1][e - 1], sol[0][e - 1]);
        assert(cell_clues(sol, n, 1, 0, e - 1)[0] == is);
        lemma_in_universe(sol, na, n, 1, 0, e - 1, is);
        assert(u.contains(is));
        lemma_edge_linked(nn, u, is);
    }
}

/// The spanning forest selected from any ordering of the clue universe of a
/// well-formed solution over at least two attributes links every value that
/// the solution places to every other.
pub proof fn forest_links_all_values(
    values: Seq<AttributeValue>,
    sol: Seq<Seq<usize>>,
    na: int,
    n: int,
    order: Seq<Clue>,
)
    requires
        solution_wf(values, sol, na, n),
        na >= 2,
        order.to_multiset() == clue_universe(sol, na, n).to_multiset(),
    ensures
        forall|a: int, e: int, a2: int, e2: int|
            0 <= a < na && 0 <= e < n && 0 <= a2 < na && 0 <= e2 < n ==> component_labels(
                values.len(),
                spanning_forest(values.len(), order),
            )[#[trigger] sol[a][e] as int] == component_labels(
                values.len(),
                spanning_forest(values.len(), order),
            )[#[trigger] sol[a2][e2] as int],
{
    universe_connected(values, sol, na, n, order);
    forest_connects(values.len(), order);
}

/// Arena value `v` appears somewhere in the solution.
pub open spec fn places(sol: Seq<Seq<usize>>, na: int, n: int, v: int) -> bool {
    exists|a: int, e: int| 0 <= a < na && 0 <= e < n && #[trigger] sol[a][e] == v
}

/// Every arena value appears somewhere in the solution.
pub open spec fn solution_covers(values: Seq<AttributeValue>, sol: Seq<Seq<usize>>, na: int, n: int) -> bool {
    forall|v: int| 0 <= v < values.len() ==> #[trigger] places(sol, na, n, v)
}

/// A puzzle of `na >= 2` attributes over `n >= 1` entities, whose solution
/// places each of its `na * n` values, gets exactly `na * n - 1` clues from
/// the spanning-forest selection over any ordering of its clue universe.
pub proof fn forest_size_of_puzzle(
    values: Seq<AttributeValue>,
    sol: Seq<Seq<usize>>,
    na: int,
    n: int,
    order: Seq<Clue>,
)
    requires
        solution_wf(values, sol, na, n),
        solution_covers(values, sol, na, n),
        na >= 2,
        n >= 1,
        values.len() == na * n,
        order.to_multiset() == clue_universe(sol, na, n).to_multiset(),
    ensures
        spanning_forest(values.len(), order).len() == na * n - 1,
{
    let nn = values.len();
    let u = order;
    let l = component_labels(nn, u);
    crate::mst::lemma_labels_len(nn, u);
    universe_connected(values, sol, na, n, order);
    let l0 = l[sol[0][0] as int];
    assert(l.to_set() =~= set![l0]) by {
        assert forall|x: int| l.to_set().contains(x) implies x == l0 by {
            let v = choose|v: int| 0 <= v < l.len() && l[v] == x;
            assert(places(sol, na, n, v));
            let (a, e) = choose|a: int, e: int| 0 <= a < na && 0 <= e < n && #[trigger] sol[a][e] == v;
            assert(l[sol[a][e] as int] == l[sol[0][0] as int]);
        }
        assert(l[sol[0][0] as int] == l0);
        assert(sol[0][0] < nn);
    }
    assert(component_count(nn, u) == 1);
    forest_size(nn, u);
}

} // verus!
