use vstd::prelude::*;

use crate::model::{
    clue_value, is_first_index, matrix_view, position_in, relation_holds, AttributeValue, Clue,
    PuzzleError, Value,
};

verus! {

/// The zero-based position of arena value `v` in `cand`; `ValueNotFound` when
/// it has none.
pub fn position_of(values: &Vec<AttributeValue>, cand: &Vec<Vec<usize>>, v: usize) -> (r: Result<
    usize,
    PuzzleError,
>)
    ensures
        match position_in(values@, matrix_view(cand@), v) {
            Some(p) => r matches Ok(q) && q == p,
            None => r == Err::<usize, PuzzleError>(PuzzleError::ValueNotFound),
        },
{
    if v >= values.len() {
        return Err(PuzzleError::ValueNotFound);
    }
    match &values[v].value {
        Value::Pos(p) => {
            if *p >= 1 {
                Ok(*p - 1)
            } else {
                Err(PuzzleError::ValueNotFound)
            }
        },
        Value::Str(_) => {
            let a = values[v].attribute;
            if a >= cand.len() {
                return Err(PuzzleError::ValueNotFound);
            }
            let row = &cand[a];
            proof {
                assert(matrix_view(cand@)[a as int] == row@);
            }
            let mut e: usize = 0;
            while e < row.len()
                invariant
                    v < values@.len(),
                    values@[v as int].value is Str,
                    a == values@[v as int].attribute,
                    a < cand@.len(),
                    matrix_view(cand@)[a as int] == row@,
                    e <= row@.len(),
                    forall|j: int| 0 <= j < e ==> row@[j] != v,
                decreases row@.len() - e,
            {
                if row[e] == v {
                    proof {
                        assert(row@[e as int] == v);
                        assert(is_first_index(row@, v, e as int));
                        let c = choose|k: int| is_first_index(row@, v, k);
                        assert(is_first_index(row@, v, c));
                        if c < e {
                            assert(row@[c] == v);
                        } else if c > e {
                            assert(row@[e as int] == v);
                        }
                        assert(c == e);
                        assert(row@.contains(v));
                        assert(values@[v as int].value is Str);
                        assert(position_in(values@, matrix_view(cand@), v) == Some(e as int));
                    }
                    return Ok(e);
                }
                e = e + 1;
            }
            proof {
                if row@.contains(v) {
                    let k = choose|k: int| 0 <= k < row@.len() && row@[k] == v;
                    assert(row@[k] == v);
                }
            }
            Err(PuzzleError::ValueNotFound)
        },
    }
}

/// Whether clue `c` holds of candidate `cand`; `ValueNotFound` when one of
/// its values has no position there. Evaluation reads its arguments only.
pub fn evaluate(values: &Vec<AttributeValue>, cand: &Vec<Vec<usize>>, c: &Clue) -> (r: Result<
    bool,
    PuzzleError,
>)
    ensures
        match clue_value(values@, matrix_view(cand@), *c) {
            Some(b) => r == Ok::<bool, PuzzleError>(b),
            None => r == Err::<bool, PuzzleError>(PuzzleError::ValueNotFound),
        },
{
    let (x, y) = match c {
        Clue::Is(x, y) => (*x, *y),
        Clue::Left(x, y) => (*x, *y),
        Clue::Right(x, y) => (*x, *y),
        Clue::Neighbour(x, y) => (*x, *y),
    };
    let pa = match position_of(values, cand, x) {
        Ok(p) => p,
        Err(e) => return Err(e),
    };
    let pb = match position_of(values, cand, y) {
        Ok(p) => p,
        Err(e) => return Err(e),
    };
    let holds = match c {
        Clue::Is(_, _) => pa == pb,
        Clue::Left(_, _) => pb >= 1 && pa == pb - 1,
        Clue::Right(_, _) => pb < usize::MAX && pa == pb + 1,
        Clue::Neighbour(_, _) => (pb >= 1 && pa == pb - 1) || (pb < usize::MAX && pa == pb + 1),
    };
    proof {
        assert(holds == relation_holds(*c, pa as int, pb as int));
    }
    Ok(holds)
}

} // verus!
