use vstd::prelude::*;

use petgraph::unionfind::UnionFind;

use crate::model::Clue;

verus! {

/// petgraph's disjoint-set structure over elements `0..n`, which tracks the
/// components while the spanning forest grows.
#[verifier::external_type_specification]
#[verifier::external_body]
#[verifier::reject_recursive_types(K)]
pub struct ExUnionFind<K>(UnionFind<K>);

/// The representative that a petgraph union-find gives each of its elements.
pub uninterp spec fn uf_roots(u: UnionFind<usize>) -> Seq<usize>;

/// Relies on petgraph's `UnionFind::new`: `n` singleton sets, each element
/// its own representative.
#[verifier::external_body]
fn uf_new(n: usize) -> (r: UnionFind<usize>)
    ensures
        uf_roots(r).len() == n,
        forall|i: int| 0 <= i < n ==> #[trigger] uf_roots(r)[i] == i,
{
    UnionFind::new(n)
}

/// Relies on petgraph's `UnionFind::union`: it reports whether `x` and `y`
/// were in different sets, and merges the two sets.
#[verifier::external_body]
fn uf_union(u: &mut UnionFind<usize>, x: usize, y: usize) -> (r: bool)
    requires
        x < uf_roots(*old(u)).len(),
        y < uf_roots(*old(u)).len(),
    ensures
        uf_roots(*final(u)).len() == uf_roots(*old(u)).len(),
        r == (uf_roots(*old(u))[x as int] != uf_roots(*old(u))[y as int]),
        forall|i: int, j: int|
            0 <= i < uf_roots(*old(u)).len() && 0 <= j < uf_roots(*old(u)).len() ==> ((
            #[trigger] uf_roots(*final(u))[i] == #[trigger] uf_roots(*final(u))[j]) <==> merged(
                uf_roots(*old(u)).map_values(|v: usize| v as int),
                x as int,
                y as int,
                i,
                j,
            )),
{
    u.union(x, y)
}

/// `i` and `j` share a class once the classes of `x` and `y` of labelling
/// `l` are joined.
pub open spec fn merged(l: Seq<int>, x: int, y: int, i: int, j: int) -> bool {
    ||| l[i] == l[j]
    ||| (l[i] == l[x] && l[j] == l[y])
    ||| (l[i] == l[y] && l[j] == l[x])
}

/// The labelling `l` with the class of `y` joined to the class of `x`.
pub open spec fn join(l: Seq<int>, x: int, y: int) -> Seq<int> {
    l.map_values(|v: int| if v == l[y] { l[x] } else { v })
}

/// The graph edge of a clue: its two values.
pub open spec fn edge_of(c: Clue) -> (int, int) {
    (c.first() as int, c.second() as int)
}

/// Connected components of the graph on nodes `0..n` whose edges are the
/// clues of `cs`: two nodes carry the same label exactly when a chain of
/// those clues links them.
pub open spec fn component_labels(n: nat, cs: Seq<Clue>) -> Seq<int>
    decreases cs.len(),
{
    if cs.len() == 0 {
        Seq::new(n, |i: int| i)
    } else {
        let l = component_labels(n, cs.drop_last());
        let (x, y) = edge_of(cs.last());
        if 0 <= x < n && 0 <= y < n {
            join(l, x, y)
        } else {
            l
        }
    }
}

/// The number of connected components of that graph.
pub open spec fn component_count(n: nat, cs: Seq<Clue>) -> nat {
    component_labels(n, cs).to_set().len()
}

/// The clues kept by the spanning-forest selection, in order: each clue is
/// kept exactly when the clues before it leave its two values in different
/// components.
pub open spec fn spanning_forest(n: nat, cs: Seq<Clue>) -> Seq<Clue>
    decreases cs.len(),
{
    if cs.len() == 0 {
        Seq::empty()
    } else {
        let prev = cs.drop_last();
        let l = component_labels(n, prev);
        let (x, y) = edge_of(cs.last());
        if 0 <= x < n && 0 <= y < n && l[x] != l[y] {
            spanning_forest(n, prev).push(cs.last())
        } else {
            spanning_forest(n, prev)
        }
    }
}

/// Both values of every clue of `cs` are nodes `0..n`.
pub open spec fn clues_within(n: nat, cs: Seq<Clue>) -> bool {
    forall|i: int| 0 <= i < cs.len() ==> (#[trigger] cs[i]).first() < n && cs[i].second() < n
}

pub(crate) proof fn lemma_labels_len(n: nat, cs: Seq<Clue>)
    ensures
        component_labels(n, cs).len() == n,
    decreases cs.len(),
{
    if cs.len() > 0 {
        lemma_labels_len(n, cs.drop_last());
    }
}

/// The same-class relation of two labellings agrees on `0..n`.
pub open spec fn same_partition(n: nat, l1: Seq<int>, l2: Seq<int>) -> bool {
    forall|i: int, j: int|
        0 <= i < n && 0 <= j < n ==> ((#[trigger] l1[i] == #[trigger] l1[j]) <==> (l2[i] == l2[j]))
}

/// A spanning forest over the clue graph on nodes `0..n`, taken greedily in
/// the clues' order: a clue is kept when it links two values that the clues
/// kept so far leave apart.
pub fn select_mst(n_nodes: usize, clues: &Vec<Clue>) -> (r: Vec<Clue>)
    requires
        clues_within(n_nodes as nat, clues@),
    ensures
        r@ == spanning_forest(n_nodes as nat, clues@),
{
    let ghost n = n_nodes as nat;
    let mut forest: Vec<Clue> = Vec::new();
    let mut sets = uf_new(n_nodes);
    let mut k: usize = 0;
    while k < clues.len()
        invariant
            n == n_nodes,
            clues_within(n, clues@),
            k <= clues@.len(),
            uf_roots(sets).len() == n,
            same_partition(
                n,
                uf_roots(sets).map_values(|v: usize| v as int),
                component_labels(n, clues@.subrange(0, k as int)),
            ),
            forest@ == spanning_forest(n, clues@.subrange(0, k as int)),
        decreases clues@.len() - k,
    {
        let c = clues[k];
        let (x, y) = match c {
            Clue::Is(x, y) => (x, y),
            Clue::Left(x, y) => (x, y),
            Clue::Right(x, y) => (x, y),
            Clue::Neighbour(x, y) => (x, y),
        };
        let ghost old_roots = uf_roots(sets).map_values(|v: usize| v as int);
        let ghost prefix = clues@.subrange(0, k as int);
        let ghost next = clues@.subrange(0, k + 1);
        proof {
            assert(next.drop_last() =~= prefix);
            assert(next.last() == c);
            assert(clues@[k as int] == c);
            assert(c.first() < n && c.second() < n);
            assert(x as int == c.first() && y as int == c.second());
            assert(old_roots[x as int] == uf_roots(sets)[x as int] as int);
            assert(old_roots[y as int] == uf_roots(sets)[y as int] as int);
            lemma_labels_len(n, prefix);
        }
        let joined = uf_union(&mut sets, x, y);
        proof {
            let l = component_labels(n, prefix);
            let l2 = component_labels(n, next);
            let new_roots = uf_roots(sets).map_values(|v: usize| v as int);
            assert(l2 == join(l, x as int, y as int));
            assert(joined == (l[x as int] != l[y as int]));
            assert forall|i: int, j: int| 0 <= i < n && 0 <= j < n implies ((
            #[trigger] new_roots[i] == #[trigger] new_roots[j]) <==> (l2[i] == l2[j])) by {
                assert(new_roots[i] == uf_roots(sets)[i] as int);
                assert(new_roots[j] == uf_roots(sets)[j] as int);
                assert(merged(old_roots, x as int, y as int, i, j) == merged(
                    l,
                    x as int,
                    y as int,
                    i,
                    j,
                ));
            }
        }
        if joined {
            forest.push(c);
        }
        k = k + 1;
    }
    proof {
        assert(clues@.subrange(0, clues@.len() as int) =~= clues@);
    }
    forest
}

proof fn lemma_join_relation(l: Seq<int>, x: int, y: int, i: int, j: int)
    requires
        0 <= x < l.len(),
        0 <= y < l.len(),
        0 <= i < l.len(),
        0 <= j < l.len(),
    ensures
        (join(l, x, y)[i] == join(l, x, y)[j]) == merged(l, x, y, i, j),
{
}

proof fn lemma_join_count(l: Seq<int>, x: int, y: int)
    requires
        0 <= x < l.len(),
        0 <= y < l.len(),
    ensures
        l[x] != l[y] ==> join(l, x, y).to_set().len() + 1 == l.to_set().len(),
        l[x] == l[y] ==> join(l, x, y) == l,
{
    let j = join(l, x, y);
    if l[x] != l[y] {
        assert(j.to_set() =~= l.to_set().remove(l[y])) by {
            assert forall|v: int| j.to_set().contains(v) implies l.to_set().remove(l[y]).contains(v) by {
                let i = choose|i: int| 0 <= i < j.len() && j[i] == v;
                if l[i] == l[y] {
                    assert(j[x] == l[x]);
                } else {
                    assert(l[i] == v);
                }
            }
            assert forall|v: int| l.to_set().remove(l[y]).contains(v) implies j.to_set().contains(v) by {
                let i = choose|i: int| 0 <= i < l.len() && l[i] == v;
                assert(j[i] == v);
            }
        }
        assert(l.to_set().contains(l[y]));
        vstd::seq_lib::seq_to_set_is_finite(l);
    } else {
        assert(j =~= l);
    }
}

/// Size of the spanning forest: the clues kept number the nodes less the
/// connected components of the whole clue graph.
pub proof fn forest_size(n: nat, cs: Seq<Clue>)
    ensures
        spanning_forest(n, cs).len() + component_count(n, cs) == n,
    decreases cs.len(),
{
    if cs.len() == 0 {
        let l = Seq::new(n, |i: int| i);
        assert(l.no_duplicates());
        l.unique_seq_to_set();
    } else {
        let prev = cs.drop_last();
        forest_size(n, prev);
        lemma_labels_len(n, prev);
        let l = component_labels(n, prev);
        let (x, y) = edge_of(cs.last());
        if 0 <= x < n && 0 <= y < n {
            lemma_join_count(l, x, y);
        }
    }
}

/// Connectivity of the spanning forest: its clues link exactly the nodes
/// that the whole clue graph links.
pub proof fn forest_connects(n: nat, cs: Seq<Clue>)
    ensures
        same_partition(n, component_labels(n, spanning_forest(n, cs)), component_labels(n, cs)),
    decreases cs.len(),
{
    if cs.len() > 0 {
        let prev = cs.drop_last();
        forest_connects(n, prev);
        let f = spanning_forest(n, prev);
        let lf = component_labels(n, f);
        let l = component_labels(n, prev);
        lemma_labels_len(n, prev);
        lemma_labels_len(n, f);
        let c = cs.last();
        let (x, y) = edge_of(c);
        if 0 <= x < n && 0 <= y < n {
            if l[x] != l[y] {
                let f2 = f.push(c);
                assert(f2.drop_last() =~= f);
                assert(component_labels(n, f2) == join(lf, x, y));
                assert forall|i: int, j: int| 0 <= i < n && 0 <= j < n implies ((
                #[trigger] component_labels(n, f2)[i] == #[trigger] component_labels(n, f2)[j])
                    <==> (component_labels(n, cs)[i] == component_labels(n, cs)[j])) by {
                    lemma_join_relation(lf, x, y, i, j);
                    lemma_join_relation(l, x, y, i, j);
                    assert(lf[i] == lf[j] <==> l[i] == l[j]);
                    assert(lf[i] == lf[x] <==> l[i] == l[x]);
                    assert(lf[j] == lf[y] <==> l[j] == l[y]);
                    assert(lf[i] == lf[y] <==> l[i] == l[y]);
                    assert(lf[j] == lf[x] <==> l[j] == l[x]);
                }
            } else {
                lemma_join_count(l, x, y);
            }
        }
    }
}

} // verus!
