//! Scalar expressions over the columns of a row shape, their evaluation, and
//! the column-reference rewrites that the delta-join renderer performs.

use vstd::prelude::*;

use crate::find::{first_where, has_match, lemma_first_where, lemma_first_where_unique};
use crate::row::{Datum, Row};

verus! {

/// A binary scalar function.
#[derive(Clone, Copy, Debug, PartialEq, Eq, Structural)]
pub enum BinaryFunc {
    /// SQL equality: `Null` on either side yields `Null`, never `True`.
    Eq,
    /// Integer `>`: `Null` propagates; non-integer operands are an evaluation error.
    Gt,
}

/// A runtime scalar-evaluation error. Such errors never fail a stream; they
/// shift the offending update into the error channel.
#[derive(Clone, Copy, Debug, PartialEq, Eq, Structural)]
pub enum EvalError {
    TypeError,
}

/// A scalar expression. Column references are indices into some row shape;
/// which shape is meant (an input's local columns, the global concatenation,
/// or a delta stream's working row) depends on where the expression stands.
#[derive(Debug, PartialEq, Eq)]
pub enum ScalarExpr {
    Column(usize),
    Literal(Datum),
    CallBinary { func: BinaryFunc, expr1: Box<ScalarExpr>, expr2: Box<ScalarExpr> },
}

impl Clone for ScalarExpr {
    fn clone(&self) -> (r: Self)
        ensures
            r == *self,
        decreases *self,
    {
        match self {
            ScalarExpr::Column(c) => ScalarExpr::Column(*c),
            ScalarExpr::Literal(d) => ScalarExpr::Literal(*d),
            ScalarExpr::CallBinary { func, expr1, expr2 } => ScalarExpr::CallBinary {
                func: *func,
                expr1: Box::new((**expr1).clone()),
                expr2: Box::new((**expr2).clone()),
            },
        }
    }
}

/// Structural equality of expressions, usable from executable code.
pub fn expr_eq(a: &ScalarExpr, b: &ScalarExpr) -> (r: bool)
    ensures
        r == (a == b),
    decreases *a,
{
    match (a, b) {
        (ScalarExpr::Column(c1), ScalarExpr::Column(c2)) => c1 == c2,
        (ScalarExpr::Literal(d1), ScalarExpr::Literal(d2)) => d1 == d2,
        (
            ScalarExpr::CallBinary { func: f1, expr1: a1, expr2: b1 },
            ScalarExpr::CallBinary { func: f2, expr1: a2, expr2: b2 },
        ) => *f1 == *f2 && expr_eq(&**a1, &**a2) && expr_eq(&**b1, &**b2),
        _ => false,
    }
}

/// Whether `v` holds an expression structurally equal to `e`.
pub fn contains_expr(v: &Vec<ScalarExpr>, e: &ScalarExpr) -> (r: bool)
    ensures
        r == v@.contains(*e),
{
    let mut i: usize = 0;
    while i < v.len()
        invariant
            i <= v@.len(),
            forall|j: int| 0 <= j < i ==> v@[j] != *e,
        decreases v@.len() - i,
    {
        if expr_eq(&v[i], e) {
            return true;
        }
        i += 1;
    }
    proof {
        if v@.contains(*e) {
            let j = choose|j: int| 0 <= j < v@.len() && v@[j] == *e;
            assert(false);
        }
    }
    false
}

/// Structural equality of expression lists.
pub fn exprs_eq(a: &Vec<ScalarExpr>, b: &Vec<ScalarExpr>) -> (r: bool)
    ensures
        r == (a@ == b@),
{
    if a.len() != b.len() {
        return false;
    }
    let mut i: usize = 0;
    while i < a.len()
        invariant
            i <= a@.len(),
            a@.len() == b@.len(),
            forall|j: int| 0 <= j < i ==> a@[j] == b@[j],
        decreases a@.len() - i,
    {
        if !expr_eq(&a[i], &b[i]) {
            assert(a@[i as int] != b@[i as int]);
            return false;
        }
        i += 1;
    }
    proof {
        assert(a@ =~= b@);
    }
    true
}

/// All column references of `e` lie below `arity`.
pub open spec fn expr_wf(e: ScalarExpr, arity: int) -> bool
    decreases e,
{
    match e {
        ScalarExpr::Column(c) => (c as int) < arity,
        ScalarExpr::Literal(_) => true,
        ScalarExpr::CallBinary { func, expr1, expr2 } => expr_wf(*expr1, arity)
            && expr_wf(*expr2, arity),
    }
}

/// All column references of every expression in `es` lie below `arity`.
pub open spec fn exprs_wf(es: Seq<ScalarExpr>, arity: int) -> bool {
    forall|k: int| 0 <= k < es.len() ==> expr_wf(#[trigger] es[k], arity)
}

/// All column references of `e` occur in `cols`.
pub open spec fn supported(e: ScalarExpr, cols: Seq<usize>) -> bool
    decreases e,
{
    match e {
        ScalarExpr::Column(c) => cols.contains(c),
        ScalarExpr::Literal(_) => true,
        ScalarExpr::CallBinary { func, expr1, expr2 } => supported(*expr1, cols)
            && supported(*expr2, cols),
    }
}

/// Whether every column reference of `e` occurs in `cols`.
pub fn is_supported(e: &ScalarExpr, cols: &Vec<usize>) -> (r: bool)
    ensures
        r == supported(*e, cols@),
    decreases *e,
{
    match e {
        ScalarExpr::Column(c) => contains_col(cols, *c),
        ScalarExpr::Literal(_) => true,
        ScalarExpr::CallBinary { func, expr1, expr2 } => is_supported(&**expr1, cols)
            && is_supported(&**expr2, cols),
    }
}

/// Whether `cols` holds the column index `c`.
pub fn contains_col(cols: &Vec<usize>, c: usize) -> (r: bool)
    ensures
        r == cols@.contains(c),
{
    let mut i: usize = 0;
    while i < cols.len()
        invariant
            i <= cols@.len(),
            forall|j: int| 0 <= j < i ==> cols@[j] != c,
        decreases cols@.len() - i,
    {
        if cols[i] == c {
            return true;
        }
        i += 1;
    }
    proof {
        if cols@.contains(c) {
            let j = choose|j: int| 0 <= j < cols@.len() && cols@[j] == c;
            assert(false);
        }
    }
    false
}

/// The predicate "is the column index `c`", for first-position scans.
pub open spec fn col_is(c: usize) -> spec_fn(usize) -> bool {
    |x: usize| x == c
}

/// The position in `cols` of the first occurrence of `c` (or `cols.len()`).
pub open spec fn first_pos(cols: Seq<usize>, c: usize) -> int {
    first_where(cols, col_is(c))
}

pub proof fn lemma_first_pos(cols: Seq<usize>, c: usize)
    ensures
        cols.contains(c) ==> {
            &&& 0 <= first_pos(cols, c) < cols.len()
            &&& cols[first_pos(cols, c)] == c
            &&& forall|j: int| 0 <= j < first_pos(cols, c) ==> cols[j] != c
        },
        !cols.contains(c) ==> first_pos(cols, c) == cols.len(),
{
    let p = col_is(c);
    if cols.contains(c) {
        let i = choose|i: int| 0 <= i < cols.len() && cols[i] == c;
        assert(p(cols[i]));
        assert(has_match(cols, p));
    } else {
        if has_match(cols, p) {
            let i = choose|i: int| 0 <= i < cols.len() && #[trigger] p(cols[i]);
            assert(cols[i] == c);
            assert(false);
        }
    }
    lemma_first_where(cols, p);
    if cols.contains(c) {
        assert forall|j: int| 0 <= j < first_pos(cols, c) implies cols[j] != c by {
            assert(!p(cols[j]));
        }
    }
}

/// The position in `cols` of the first occurrence of `c`, if any.
pub fn position_of(cols: &Vec<usize>, c: usize) -> (r: Option<usize>)
    ensures
        cols@.contains(c) ==> r == Some(first_pos(cols@, c) as usize),
        !cols@.contains(c) ==> r is None,
{
    let mut i: usize = 0;
    while i < cols.len()
        invariant
            i <= cols@.len(),
            forall|j: int| 0 <= j < i ==> cols@[j] != c,
        decreases cols@.len() - i,
    {
        if cols[i] == c {
            proof {
                let p = col_is(c);
                assert(p(cols@[i as int]));
                assert forall|j: int| 0 <= j < i implies !p(cols@[j]) by {}
                lemma_first_where_unique(cols@, p, i as int);
                assert(cols@.contains(c));
            }
            return Some(i);
        }
        i += 1;
    }
    proof {
        if cols@.contains(c) {
            let j = choose|j: int| 0 <= j < cols@.len() && cols@[j] == c;
            assert(false);
        }
    }
    None
}

/// `e` with every column reference replaced by its (first) position in `cols`:
/// the rewrite from one coordinate space into working-row coordinates.
pub open spec fn rewrite_spec(e: ScalarExpr, cols: Seq<usize>) -> ScalarExpr
    decreases e,
{
    match e {
        ScalarExpr::Column(c) => ScalarExpr::Column(first_pos(cols, c) as usize),
        ScalarExpr::Literal(d) => ScalarExpr::Literal(d),
        ScalarExpr::CallBinary { func, expr1, expr2 } => ScalarExpr::CallBinary {
            func,
            expr1: Box::new(rewrite_spec(*expr1, cols)),
            expr2: Box::new(rewrite_spec(*expr2, cols)),
        },
    }
}

/// A supported expression rewritten over `cols` references only working-row
/// positions below `cols.len()`.
pub proof fn lemma_rewrite_wf(e: ScalarExpr, cols: Seq<usize>)
    requires
        supported(e, cols),
    ensures
        expr_wf(rewrite_spec(e, cols), cols.len() as int),
    decreases e,
{
    match e {
        ScalarExpr::Column(c) => {
            lemma_first_pos(cols, c);
        }
        ScalarExpr::Literal(_) => {}
        ScalarExpr::CallBinary { func, expr1, expr2 } => {
            lemma_rewrite_wf(*expr1, cols);
            lemma_rewrite_wf(*expr2, cols);
        }
    }
}

/// Rewrites column references of `e` to their positions in `cols`.
pub fn rewrite_columns(e: &ScalarExpr, cols: &Vec<usize>) -> (r: ScalarExpr)
    requires
        supported(*e, cols@),
    ensures
        r == rewrite_spec(*e, cols@),
    decreases *e,
{
    match e {
        ScalarExpr::Column(c) => {
            let i = position_of(cols, *c).unwrap();
            ScalarExpr::Column(i)
        }
        ScalarExpr::Literal(d) => ScalarExpr::Literal(*d),
        ScalarExpr::CallBinary { func, expr1, expr2 } => ScalarExpr::CallBinary {
            func: *func,
            expr1: Box::new(rewrite_columns(&**expr1, cols)),
            expr2: Box::new(rewrite_columns(&**expr2, cols)),
        },
    }
}

/// `e` with every column reference moved up by `offset`: the rebase from an
/// input's local columns into global columns.
pub open spec fn shift_spec(e: ScalarExpr, offset: int) -> ScalarExpr
    decreases e,
{
    match e {
        ScalarExpr::Column(c) => ScalarExpr::Column((c + offset) as usize),
        ScalarExpr::Literal(d) => ScalarExpr::Literal(d),
        ScalarExpr::CallBinary { func, expr1, expr2 } => ScalarExpr::CallBinary {
            func,
            expr1: Box::new(shift_spec(*expr1, offset)),
            expr2: Box::new(shift_spec(*expr2, offset)),
        },
    }
}

pub proof fn lemma_shift_wf(e: ScalarExpr, offset: int, arity: int)
    requires
        expr_wf(e, arity),
        0 <= offset,
        offset + arity <= usize::MAX,
    ensures
        expr_wf(shift_spec(e, offset), offset + arity),
    decreases e,
{
    match e {
        ScalarExpr::Column(c) => {}
        ScalarExpr::Literal(_) => {}
        ScalarExpr::CallBinary { func, expr1, expr2 } => {
            lemma_shift_wf(*expr1, offset, arity);
            lemma_shift_wf(*expr2, offset, arity);
        }
    }
}

/// Moves every column reference of `e` up by `offset`.
pub fn shift_columns(e: &ScalarExpr, offset: usize, bound: usize) -> (r: ScalarExpr)
    requires
        expr_wf(*e, bound as int),
        offset + bound <= usize::MAX,
    ensures
        r == shift_spec(*e, offset as int),
    decreases *e,
{
    match e {
        ScalarExpr::Column(c) => ScalarExpr::Column(*c + offset),
        ScalarExpr::Literal(d) => ScalarExpr::Literal(*d),
        ScalarExpr::CallBinary { func, expr1, expr2 } => ScalarExpr::CallBinary {
            func: *func,
            expr1: Box::new(shift_columns(&**expr1, offset, bound)),
            expr2: Box::new(shift_columns(&**expr2, offset, bound)),
        },
    }
}

/// Rank of a datum's variant, for the canonical expression order.
pub open spec fn datum_cmp(a: Datum, b: Datum) -> int {
    let ra = match a {
        Datum::Null => 0int,
        Datum::False => 1,
        Datum::True => 2,
        Datum::Int(_) => 3,
    };
    let rb = match b {
        Datum::Null => 0int,
        Datum::False => 1,
        Datum::True => 2,
        Datum::Int(_) => 3,
    };
    if ra != rb {
        if ra < rb {
            -1
        } else {
            1
        }
    } else {
        match (a, b) {
            (Datum::Int(x), Datum::Int(y)) => {
                if x < y {
                    -1
                } else if x == y {
                    0
                } else {
                    1
                }
            }
            _ => 0,
        }
    }
}

/// A total, structural three-way comparison of expressions, used only to put
/// equivalence classes into a canonical order.
pub open spec fn expr_cmp(a: ScalarExpr, b: ScalarExpr) -> int
    decreases a,
{
    let ra = match a {
        ScalarExpr::Column(_) => 0int,
        ScalarExpr::Literal(_) => 1,
        ScalarExpr::CallBinary { .. } => 2,
    };
    let rb = match b {
        ScalarExpr::Column(_) => 0int,
        ScalarExpr::Literal(_) => 1,
        ScalarExpr::CallBinary { .. } => 2,
    };
    if ra != rb {
        if ra < rb {
            -1
        } else {
            1
        }
    } else {
        match (a, b) {
            (ScalarExpr::Column(c1), ScalarExpr::Column(c2)) => {
                if c1 < c2 {
                    -1
                } else if c1 == c2 {
                    0
                } else {
                    1
                }
            }
            (ScalarExpr::Literal(d1), ScalarExpr::Literal(d2)) => datum_cmp(d1, d2),
            (
                ScalarExpr::CallBinary { func: f1, expr1: x1, expr2: y1 },
                ScalarExpr::CallBinary { func: f2, expr1: x2, expr2: y2 },
            ) => {
                let rf1 = match f1 {
                    BinaryFunc::Eq => 0int,
                    BinaryFunc::Gt => 1,
                };
                let rf2 = match f2 {
                    BinaryFunc::Eq => 0int,
                    BinaryFunc::Gt => 1,
                };
                if rf1 != rf2 {
                    if rf1 < rf2 {
                        -1
                    } else {
                        1
                    }
                } else {
                    let c1 = expr_cmp(*x1, *x2);
                    if c1 != 0 {
                        c1
                    } else {
                        expr_cmp(*y1, *y2)
                    }
                }
            }
            _ => 0,
        }
    }
}

/// Three-way comparison of expressions in the canonical order.
pub fn expr_compare(a: &ScalarExpr, b: &ScalarExpr) -> (r: i8)
    ensures
        r as int == expr_cmp(*a, *b),
    decreases *a,
{
    match (a, b) {
        (ScalarExpr::Column(c1), ScalarExpr::Column(c2)) => {
            if *c1 < *c2 {
                -1
            } else if *c1 == *c2 {
                0
            } else {
                1
            }
        }
        (ScalarExpr::Column(_), _) => -1,
        (ScalarExpr::Literal(_), ScalarExpr::Column(_)) => 1,
        (ScalarExpr::Literal(d1), ScalarExpr::Literal(d2)) => {
            let r1: i8 = match d1 {
                Datum::Null => 0,
                Datum::False => 1,
                Datum::True => 2,
                Datum::Int(_) => 3,
            };
            let r2: i8 = match d2 {
                Datum::Null => 0,
                Datum::False => 1,
                Datum::True => 2,
                Datum::Int(_) => 3,
            };
            if r1 != r2 {
                if r1 < r2 {
                    -1
                } else {
                    1
                }
            } else {
                match (d1, d2) {
                    (Datum::Int(x), Datum::Int(y)) => {
                        if *x < *y {
                            -1
                        } else if *x == *y {
                            0
                        } else {
                            1
                        }
                    }
                    _ => 0,
                }
            }
        }
        (ScalarExpr::Literal(_), ScalarExpr::CallBinary { .. }) => -1,
        (ScalarExpr::CallBinary { .. }, ScalarExpr::Column(_)) => 1,
        (ScalarExpr::CallBinary { .. }, ScalarExpr::Literal(_)) => 1,
        (
            ScalarExpr::CallBinary { func: f1, expr1: x1, expr2: y1 },
            ScalarExpr::CallBinary { func: f2, expr1: x2, expr2: y2 },
        ) => {
            let rf1: i8 = match f1 {
                BinaryFunc::Eq => 0,
                BinaryFunc::Gt => 1,
            };
            let rf2: i8 = match f2 {
                BinaryFunc::Eq => 0,
                BinaryFunc::Gt => 1,
            };
            if rf1 != rf2 {
                if rf1 < rf2 {
                    -1
                } else {
                    1
                }
            } else {
                let c1 = expr_compare(&**x1, &**x2);
                if c1 != 0 {
                    c1
                } else {
                    expr_compare(&**y1, &**y2)
                }
            }
        }
    }
}

/// What a binary function returns on two evaluated operands.
pub open spec fn apply_binary(func: BinaryFunc, a: Datum, b: Datum) -> Result<Datum, EvalError> {
    match func {
        BinaryFunc::Eq => {
            if a is Null || b is Null {
                Ok(Datum::Null)
            } else if a == b {
                Ok(Datum::True)
            } else {
                Ok(Datum::False)
            }
        }
        BinaryFunc::Gt => {
            match (a, b) {
                (Datum::Null, _) => Ok(Datum::Null),
                (_, Datum::Null) => Ok(Datum::Null),
                (Datum::Int(x), Datum::Int(y)) => Ok(
                    if x > y {
                        Datum::True
                    } else {
                        Datum::False
                    },
                ),
                _ => Err(EvalError::TypeError),
            }
        }
    }
}

/// What `e` evaluates to on `row`. Operands are evaluated left to right and
/// the first error wins.
pub open spec fn eval_spec(e: ScalarExpr, row: Seq<Datum>) -> Result<Datum, EvalError>
    decreases e,
{
    match e {
        ScalarExpr::Column(c) => Ok(row[c as int]),
        ScalarExpr::Literal(d) => Ok(d),
        ScalarExpr::CallBinary { func, expr1, expr2 } => {
            match eval_spec(*expr1, row) {
                Err(er) => Err(er),
                Ok(a) => {
                    match eval_spec(*expr2, row) {
                        Err(er) => Err(er),
                        Ok(b) => apply_binary(func, a, b),
                    }
                }
            }
        }
    }
}

/// Evaluates `e` on `row`.
pub fn eval(e: &ScalarExpr, row: &Row) -> (r: Result<Datum, EvalError>)
    requires
        expr_wf(*e, row@.len() as int),
    ensures
        r == eval_spec(*e, row@),
    decreases *e,
{
    match e {
        ScalarExpr::Column(c) => Ok(row.datums[*c]),
        ScalarExpr::Literal(d) => Ok(*d),
        ScalarExpr::CallBinary { func, expr1, expr2 } => {
            let a = match eval(&**expr1, row) {
                Ok(a) => a,
                Err(er) => {
                    return Err(er);
                }
            };
            let b = match eval(&**expr2, row) {
                Ok(b) => b,
                Err(er) => {
                    return Err(er);
                }
            };
            match func {
                BinaryFunc::Eq => {
                    match (a, b) {
                        (Datum::Null, _) => Ok(Datum::Null),
                        (_, Datum::Null) => Ok(Datum::Null),
                        _ => {
                            if a == b {
                                Ok(Datum::True)
                            } else {
                                Ok(Datum::False)
                            }
                        }
                    }
                }
                BinaryFunc::Gt => {
                    match (a, b) {
                        (Datum::Null, _) => Ok(Datum::Null),
                        (_, Datum::Null) => Ok(Datum::Null),
                        (Datum::Int(x), Datum::Int(y)) => Ok(
                            if x > y {
                                Datum::True
                            } else {
                                Datum::False
                            },
                        ),
                        _ => Err(EvalError::TypeError),
                    }
                }
            }
        }
    }
}

} // verus!
