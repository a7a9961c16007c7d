use vstd::prelude::*;

verus! {

/// An attribute of the puzzle: the position axis, or a categorical attribute
/// named after its value pool.
#[derive(Clone, Debug)]
pub enum Attribute {
    Pos,
    Str(String),
}

/// A value of an attribute: a 1-based position, or a categorical value.
#[derive(Clone, Debug)]
pub enum Value {
    Pos(usize),
    Str(String),
}

/// One record of the value arena: the index of its attribute and its value.
#[derive(Clone, Debug)]
pub struct AttributeValue {
    pub attribute: usize,
    pub value: Value,
}

/// A clue over two values of the arena, given by their indices.
#[derive(Clone, Copy, Debug, PartialEq, Eq, Structural)]
pub enum Clue {
    /// Both values belong to the same entity.
    Is(usize, usize),
    /// The first value sits immediately before the second.
    Left(usize, usize),
    /// The first value sits immediately after the second.
    Right(usize, usize),
    /// The first value sits next to the second, on either side.
    Neighbour(usize, usize),
}

/// What can go wrong while building or solving a puzzle.
#[derive(Clone, Copy, Debug, PartialEq, Eq, Structural)]
pub enum PuzzleError {
    /// A value pool holds fewer values than there are entities.
    DomainTooSmall,
    /// A value could not be placed in a candidate.
    ValueNotFound,
    /// The candidate space of the constraint selector exceeds its ceiling.
    CandidateSpaceTooLarge,
    /// The clues ran out with more than one candidate left.
    NoUniqueSolution,
}

impl Clue {
    pub open spec fn first(self) -> usize {
        match self {
            Clue::Is(a, _) => a,
            Clue::Left(a, _) => a,
            Clue::Right(a, _) => a,
            Clue::Neighbour(a, _) => a,
        }
    }

    pub open spec fn second(self) -> usize {
        match self {
            Clue::Is(_, b) => b,
            Clue::Left(_, b) => b,
            Clue::Right(_, b) => b,
            Clue::Neighbour(_, b) => b,
        }
    }
}

/// The relation that a clue states between the zero-based positions of its
/// two values.
pub open spec fn relation_holds(c: Clue, pa: int, pb: int) -> bool {
    match c {
        Clue::Is(_, _) => pa == pb,
        Clue::Left(_, _) => pb >= 1 && pa == pb - 1,
        Clue::Right(_, _) => pa == pb + 1,
        Clue::Neighbour(_, _) => (pb >= 1 && pa == pb - 1) || pa == pb + 1,
    }
}

/// `e` is the first index at which `v` occurs in `s`.
pub open spec fn is_first_index(s: Seq<usize>, v: usize, e: int) -> bool {
    0 <= e < s.len() && s[e] == v && forall|j: int| 0 <= j < e ==> s[j] != v
}

/// The zero-based position of arena value `v` in a candidate, given as one
/// sequence of arena indices per attribute: a position value names its
/// position itself, a categorical value sits where the candidate holds it.
pub open spec fn position_in(
    values: Seq<AttributeValue>,
    cand: Seq<Seq<usize>>,
    v: usize,
) -> Option<int> {
    if v >= values.len() {
        None
    } else {
        match values[v as int].value {
            Value::Pos(p) => if p >= 1 {
                Some(p - 1)
            } else {
                None
            },
            Value::Str(_) => {
                let a = values[v as int].attribute;
                if a < cand.len() && cand[a as int].contains(v) {
                    Some(choose|e: int| is_first_index(cand[a as int], v, e))
                } else {
                    None
                }
            },
        }
    }
}

/// Whether a clue holds of a candidate; `None` where one of its values has no
/// position there.
pub open spec fn clue_value(
    values: Seq<AttributeValue>,
    cand: Seq<Seq<usize>>,
    c: Clue,
) -> Option<bool> {
    match (position_in(values, cand, c.first()), position_in(values, cand, c.second())) {
        (Some(pa), Some(pb)) => Some(relation_holds(c, pa, pb)),
        _ => None,
    }
}

/// The view of a candidate matrix.
pub open spec fn matrix_view(m: Seq<Vec<usize>>) -> Seq<Seq<usize>> {
    m.map_values(|row: Vec<usize>| row@)
}

} // verus!

verus! {

/// A solution (or candidate) is well formed over an arena: one row of `n`
/// distinct arena indices per attribute, each of that attribute; row 0 is the
/// position axis in order, the other rows hold categorical values.
pub open spec fn solution_wf(
    values: Seq<AttributeValue>,
    sol: Seq<Seq<usize>>,
    n_attributes: int,
    n: int,
) -> bool {
    &&& n_attributes >= 1
    &&& sol.len() == n_attributes
    &&& forall|a: int| 0 <= a < n_attributes ==> #[trigger] sol[a].len() == n
    &&& forall|a: int| 0 <= a < n_attributes ==> #[trigger] sol[a].no_duplicates()
    &&& forall|a: int, e: int|
        0 <= a < n_attributes && 0 <= e < n ==> (#[trigger] sol[a][e]) < values.len()
            && values[sol[a][e] as int].attribute == a
    &&& forall|e: int|
        0 <= e < n ==> (values[#[trigger] sol[0][e] as int].value matches Value::Pos(p) && p == e
            + 1)
    &&& forall|a: int, e: int|
        1 <= a < n_attributes && 0 <= e < n ==> values[#[trigger] sol[a][e] as int].value is Str
}

/// In a well-formed solution the value at entity `e` sits at position `e`.
pub proof fn lemma_position_in_solution(
    values: Seq<AttributeValue>,
    sol: Seq<Seq<usize>>,
    n_attributes: int,
    n: int,
    a: int,
    e: int,
)
    requires
        solution_wf(values, sol, n_attributes, n),
        0 <= a < n_attributes,
        0 <= e < n,
    ensures
        position_in(values, sol, sol[a][e]) == Some(e),
{
    let v = sol[a][e];
    assert(v < values.len() && values[v as int].attribute == a);
    if a == 0 {
        assert(values[v as int].value matches Value::Pos(p) && p == e + 1);
    } else {
        assert(values[v as int].value is Str);
        assert(sol[a][e] == v);
        assert(sol[a].contains(v));
        assert(sol[a].no_duplicates());
        assert forall|j: int| 0 <= j < e implies sol[a][j] != v by {
            if sol[a][j] == v {
                assert(sol[a][j] == sol[a][e]);
            }
        }
        assert(is_first_index(sol[a], v, e));
        let c = choose|k: int| is_first_index(sol[a], v, k);
        assert(is_first_index(sol[a], v, c));
        assert(sol[a].no_duplicates());
        if c != e {
            assert(sol[a][c] == sol[a][e]);
        }
    }
}

} // verus!
