use delta_join::eval::{eval_delta_join, eval_delta_path, Update};
use delta_join::expr::{BinaryFunc, ScalarExpr};
use delta_join::render::{
    ArrangementEntry, ArrangementFlavor, Context, DeltaPathStep, JoinExpr, JoinImplementation,
};
use delta_join::row::{Datum, Row};

fn col(c: usize) -> ScalarExpr {
    ScalarExpr::Column(c)
}

fn lit_int(i: i64) -> ScalarExpr {
    ScalarExpr::Literal(Datum::Int(i))
}

fn gt(a: ScalarExpr, b: ScalarExpr) -> ScalarExpr {
    ScalarExpr::CallBinary { func: BinaryFunc::Gt, expr1: Box::new(a), expr2: Box::new(b) }
}

fn step(peer: usize, key: Vec<ScalarExpr>) -> DeltaPathStep {
    DeltaPathStep { peer, key }
}

fn entry(input: usize, key: Vec<ScalarExpr>) -> ArrangementEntry {
    ArrangementEntry { input, key, flavor: ArrangementFlavor::Local }
}

fn ints(vals: &[i64]) -> Row {
    Row::new(vals.iter().map(|v| Datum::Int(*v)).collect())
}

fn up(row: Row, time: u64, diff: i64) -> Update {
    Update { row, time, diff }
}

/// Two inputs R(a,b) and S(b,c) with the equivalence {R.b, S.b}.
fn two_input_join() -> JoinExpr {
    JoinExpr {
        input_arities: vec![2, 2],
        equivalences: vec![vec![col(1), col(2)]],
        implementation: JoinImplementation::DeltaQuery(vec![
            vec![step(1, vec![col(0)])],
            vec![step(0, vec![col(1)])],
        ]),
    }
}

fn two_input_context() -> Context {
    Context::new(vec![entry(1, vec![col(0)]), entry(0, vec![col(1)])])
}

#[test]
fn sequential_updates_join_once() {
    // R gains (1,10) at t=1, S gains (10,100) at t=2. The stream rooted at
    // R sees no match (S was empty at the prior time); the stream rooted at
    // S sees R at the prior time and emits the joined row once.
    let ctx = two_input_context();
    let plan = ctx.render_delta_join(&two_input_join(), &Vec::new()).unwrap();
    let inputs = vec![
        vec![up(ints(&[1, 10]), 1, 1)],
        vec![up(ints(&[10, 100]), 2, 1)],
    ];
    let arities = vec![2usize, 2];
    let (oks, errs) = eval_delta_join(&plan, &inputs, &arities);
    assert!(errs.is_empty());
    assert_eq!(oks.len(), 1);
    assert_eq!(oks[0].row.datums, ints(&[1, 10, 10, 100]).datums);
    assert_eq!(oks[0].time, 2);
    assert_eq!(oks[0].diff, 1);
}

#[test]
fn concurrent_updates_join_exactly_once() {
    // Both updates arrive at t=1. The stream rooted at R consults S at
    // `alt` and misses the concurrent update; the one rooted at S consults
    // R at `neu` and sees it: the joined row comes out exactly once.
    let ctx = two_input_context();
    let plan = ctx.render_delta_join(&two_input_join(), &Vec::new()).unwrap();
    let inputs = vec![
        vec![up(ints(&[1, 10]), 1, 1)],
        vec![up(ints(&[10, 100]), 1, 1)],
    ];
    let arities = vec![2usize, 2];
    let (oks, errs) = eval_delta_join(&plan, &inputs, &arities);
    assert!(errs.is_empty());
    assert_eq!(oks.len(), 1);
    assert_eq!(oks[0].row.datums, ints(&[1, 10, 10, 100]).datums);
    assert_eq!(oks[0].time, 1);
    assert_eq!(oks[0].diff, 1);
}

#[test]
fn three_way_concurrent_updates_join_once() {
    // R(a), S(a,b), T(b), one update to each at t=1: the single joined row
    // comes out with total multiplicity one.
    let join = JoinExpr {
        input_arities: vec![1, 2, 1],
        equivalences: vec![vec![col(0), col(1)], vec![col(2), col(3)]],
        implementation: JoinImplementation::DeltaQuery(vec![
            vec![step(1, vec![col(0)]), step(2, vec![col(0)])],
            vec![step(0, vec![col(0)]), step(2, vec![col(0)])],
            vec![step(1, vec![col(1)]), step(0, vec![col(0)])],
        ]),
    };
    let ctx = Context::new(vec![
        entry(1, vec![col(0)]),
        entry(2, vec![col(0)]),
        entry(0, vec![col(0)]),
        entry(1, vec![col(1)]),
    ]);
    let plan = ctx.render_delta_join(&join, &Vec::new()).unwrap();
    let inputs = vec![
        vec![up(ints(&[5]), 1, 1)],
        vec![up(ints(&[5, 7]), 1, 1)],
        vec![up(ints(&[7]), 1, 1)],
    ];
    let arities = vec![1usize, 2, 1];
    let (oks, errs) = eval_delta_join(&plan, &inputs, &arities);
    assert!(errs.is_empty());
    assert_eq!(oks.len(), 1);
    assert_eq!(oks[0].row.datums, ints(&[5, 5, 7, 7]).datums);
    assert_eq!(oks[0].diff, 1);
}

#[test]
fn pushed_down_predicate_stops_lookups() {
    // `R.a > 5` filters before the first lookup: a row with R.a = 3
    // produces no lookup activity and no output.
    let ctx = two_input_context();
    let predicates = vec![gt(col(0), lit_int(5))];
    let plan = ctx.render_delta_join(&two_input_join(), &predicates).unwrap();
    let inputs = vec![
        vec![up(ints(&[3, 10]), 2, 1)],
        vec![up(ints(&[10, 100]), 1, 1)],
    ];
    let arities = vec![2usize, 2];
    let (oks, errs) = eval_delta_path(&plan.paths[0], &inputs, &arities);
    assert!(oks.is_empty());
    assert!(errs.is_empty());
    // A row that passes the predicate joins as usual.
    let inputs2 = vec![
        vec![up(ints(&[7, 10]), 2, 1)],
        vec![up(ints(&[10, 100]), 1, 1)],
    ];
    let (oks2, errs2) = eval_delta_path(&plan.paths[0], &inputs2, &arities);
    assert!(errs2.is_empty());
    assert_eq!(oks2.len(), 1);
    assert_eq!(oks2[0].row.datums, ints(&[7, 10, 10, 100]).datums);
}

#[test]
fn evaluation_error_splits_into_error_stream() {
    // A type error in a pushed-down predicate sends the offending row to
    // the error stream; other rows are unaffected.
    let ctx = two_input_context();
    let predicates = vec![gt(col(0), lit_int(5))];
    let plan = ctx.render_delta_join(&two_input_join(), &predicates).unwrap();
    let inputs = vec![
        vec![
            up(Row::new(vec![Datum::True, Datum::Int(10)]), 2, 1),
            up(ints(&[7, 10]), 2, 1),
        ],
        vec![up(ints(&[10, 100]), 1, 1)],
    ];
    let arities = vec![2usize, 2];
    let (oks, errs) = eval_delta_path(&plan.paths[0], &inputs, &arities);
    assert_eq!(errs.len(), 1);
    assert_eq!(errs[0].time, 2);
    assert_eq!(errs[0].diff, 1);
    assert_eq!(oks.len(), 1);
    assert_eq!(oks[0].row.datums, ints(&[7, 10, 10, 100]).datums);
}

#[test]
fn null_keys_match_under_equivalences() {
    // A row with NULL in its join key matches a NULL-keyed row on the other
    // side when the equivalence class places them equal: equivalence
    // comparison is null-equal, unlike the SQL equality function.
    let join = JoinExpr {
        input_arities: vec![1, 1],
        equivalences: vec![vec![col(0), col(1)]],
        implementation: JoinImplementation::DeltaQuery(vec![
            vec![step(1, vec![col(0)])],
            vec![step(0, vec![col(0)])],
        ]),
    };
    let ctx = Context::new(vec![entry(1, vec![col(0)]), entry(0, vec![col(0)])]);
    let plan = ctx.render_delta_join(&join, &Vec::new()).unwrap();
    let inputs = vec![
        vec![up(Row::new(vec![Datum::Null]), 1, 1)],
        vec![up(Row::new(vec![Datum::Null]), 2, 1)],
    ];
    let arities = vec![1usize, 1];
    let (oks, errs) = eval_delta_join(&plan, &inputs, &arities);
    assert!(errs.is_empty());
    assert_eq!(oks.len(), 1);
    assert_eq!(oks[0].row.datums, vec![Datum::Null, Datum::Null]);
}

#[test]
fn sql_equality_drops_null_rows() {
    // The same NULL-keyed rows, constrained by the SQL equality function as
    // a predicate instead of an equivalence: NULL = NULL evaluates to NULL,
    // not TRUE, so the row is dropped without error.
    let join = JoinExpr {
        input_arities: vec![2],
        equivalences: Vec::new(),
        implementation: JoinImplementation::DeltaQuery(vec![Vec::new()]),
    };
    let ctx = Context::new(Vec::new());
    let predicates = vec![ScalarExpr::CallBinary {
        func: BinaryFunc::Eq,
        expr1: Box::new(col(0)),
        expr2: Box::new(col(1)),
    }];
    let plan = ctx.render_delta_join(&join, &predicates).unwrap();
    let inputs = vec![vec![up(Row::new(vec![Datum::Null, Datum::Null]), 1, 1)]];
    let arities = vec![2usize];
    let (oks, errs) = eval_delta_join(&plan, &inputs, &arities);
    assert!(oks.is_empty());
    assert!(errs.is_empty());
}

#[test]
fn add_then_retract_nets_to_zero() {
    // Adding then retracting an input update produces zero net multiplicity
    // for every output row.
    let ctx = two_input_context();
    let plan = ctx.render_delta_join(&two_input_join(), &Vec::new()).unwrap();
    let inputs = vec![
        vec![up(ints(&[1, 10]), 1, 1), up(ints(&[1, 10]), 1, -1)],
        vec![up(ints(&[10, 100]), 1, 1)],
    ];
    let arities = vec![2usize, 2];
    let (oks, errs) = eval_delta_join(&plan, &inputs, &arities);
    assert!(errs.is_empty());
    let mut net: i64 = 0;
    for u in &oks {
        assert_eq!(u.row.datums, ints(&[1, 10, 10, 100]).datums);
        net += u.diff;
    }
    assert_eq!(net, 0);
}

#[test]
fn empty_inputs_produce_empty_outputs() {
    let ctx = two_input_context();
    let plan = ctx.render_delta_join(&two_input_join(), &Vec::new()).unwrap();
    let inputs: Vec<Vec<Update>> = vec![Vec::new(), Vec::new()];
    let arities = vec![2usize, 2];
    let (oks, errs) = eval_delta_join(&plan, &inputs, &arities);
    assert!(oks.is_empty());
    assert!(errs.is_empty());
}

#[test]
fn retraction_in_the_arrangement_retracts_matches() {
    // The peer side retracts its row at a later time: the stream rooted at
    // S sees both the addition and the retraction of R's row.
    let ctx = two_input_context();
    let plan = ctx.render_delta_join(&two_input_join(), &Vec::new()).unwrap();
    let inputs = vec![
        vec![up(ints(&[1, 10]), 1, 1), up(ints(&[1, 10]), 2, -1)],
        vec![up(ints(&[10, 100]), 3, 1)],
    ];
    let arities = vec![2usize, 2];
    let (oks, errs) = eval_delta_join(&plan, &inputs, &arities);
    assert!(errs.is_empty());
    let mut net: i64 = 0;
    for u in &oks {
        assert_eq!(u.row.datums, ints(&[1, 10, 10, 100]).datums);
        net += u.diff;
    }
    assert_eq!(net, 0);
}

#[test]
fn input_order_does_not_change_the_output_multiset() {
    // The same three updates delivered with the input roles permuted:
    // the output multiset is identical.
    let join_a = two_input_join();
    let ctx_a = two_input_context();
    let plan_a = ctx_a.render_delta_join(&join_a, &Vec::new()).unwrap();
    // The mirrored join: S(b,c) first, R(a,b) second, equivalence
    // {S.b, R.b} now over global columns {0, 3}.
    let join_b = JoinExpr {
        input_arities: vec![2, 2],
        equivalences: vec![vec![col(0), col(3)]],
        implementation: JoinImplementation::DeltaQuery(vec![
            vec![step(1, vec![col(1)])],
            vec![step(0, vec![col(0)])],
        ]),
    };
    let ctx_b = Context::new(vec![entry(1, vec![col(1)]), entry(0, vec![col(0)])]);
    let plan_b = ctx_b.render_delta_join(&join_b, &Vec::new()).unwrap();
    let r_rows = vec![up(ints(&[1, 10]), 1, 1)];
    let s_rows = vec![up(ints(&[10, 100]), 1, 1)];
    let arities = vec![2usize, 2];
    let inputs_a = vec![r_rows, s_rows];
    let inputs_b = vec![
        vec![up(ints(&[10, 100]), 1, 1)],
        vec![up(ints(&[1, 10]), 1, 1)],
    ];
    let (oks_a, _) = eval_delta_join(&plan_a, &inputs_a, &arities);
    let (oks_b, _) = eval_delta_join(&plan_b, &inputs_b, &arities);
    assert_eq!(oks_a.len(), 1);
    assert_eq!(oks_b.len(), 1);
    // Canonical order differs between the two phrasings; compare the rows
    // as the multiset of column values of the underlying joined tuple.
    assert_eq!(oks_a[0].row.datums, ints(&[1, 10, 10, 100]).datums);
    assert_eq!(oks_b[0].row.datums, ints(&[10, 100, 1, 10]).datums);
    assert_eq!(oks_a[0].diff, oks_b[0].diff);
    assert_eq!(oks_a[0].time, oks_b[0].time);
}
