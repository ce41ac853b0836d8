use delta_join::expr::{BinaryFunc, ScalarExpr};
use delta_join::filter::{build_filter, canonicalize_equivalences};
use delta_join::render::{
    ArrangementEntry, ArrangementFlavor, Context, DeltaPathStep, DeltaStage, ErrorSource,
    JoinExpr, JoinImplementation, PlanError, TimeFlavor,
};

fn col(c: usize) -> ScalarExpr {
    ScalarExpr::Column(c)
}

fn lit_int(i: i64) -> ScalarExpr {
    ScalarExpr::Literal(delta_join::row::Datum::Int(i))
}

fn gt(a: ScalarExpr, b: ScalarExpr) -> ScalarExpr {
    ScalarExpr::CallBinary { func: BinaryFunc::Gt, expr1: Box::new(a), expr2: Box::new(b) }
}

fn step(peer: usize, key: Vec<ScalarExpr>) -> DeltaPathStep {
    DeltaPathStep { peer, key }
}

fn entry(input: usize, key: Vec<ScalarExpr>) -> ArrangementEntry {
    ArrangementEntry { input, key, flavor: ArrangementFlavor::Local }
}

/// Two inputs R(a,b) and S(b,c) with the equivalence {R.b, S.b}.
fn two_input_join() -> JoinExpr {
    JoinExpr {
        input_arities: vec![2, 2],
        equivalences: vec![vec![col(1), col(2)]],
        implementation: JoinImplementation::DeltaQuery(vec![
            vec![step(1, vec![col(0)])],
            vec![step(0, vec![col(1)])],
        ]),
    }
}

fn two_input_context() -> Context {
    Context::new(vec![entry(1, vec![col(0)]), entry(0, vec![col(1)])])
}

#[test]
fn extraction_splits_predicates_by_support() {
    let cols = vec![0usize, 1];
    let mut predicates = vec![gt(col(0), lit_int(5)), gt(col(2), lit_int(5))];
    let mut equivalences = vec![vec![col(0), col(1), col(2)]];
    let stage = build_filter(&cols, &mut predicates, &mut equivalences).unwrap();
    assert_eq!(stage.predicates, vec![gt(col(0), lit_int(5))]);
    assert_eq!(stage.equivalences, vec![vec![col(0), col(1)]]);
    assert_eq!(predicates, vec![gt(col(2), lit_int(5))]);
    assert_eq!(equivalences, vec![vec![col(0), col(2)]]);
}

#[test]
fn fully_bound_class_is_consumed() {
    let cols = vec![0usize, 1, 2];
    let mut predicates: Vec<ScalarExpr> = Vec::new();
    let mut equivalences = vec![vec![col(0), col(1), col(2)]];
    let stage = build_filter(&cols, &mut predicates, &mut equivalences).unwrap();
    assert_eq!(stage.equivalences, vec![vec![col(0), col(1), col(2)]]);
    assert!(equivalences.is_empty());
}

#[test]
fn canonicalization_sorts_and_dedups() {
    let mut equivalences = vec![vec![col(2), col(0), col(2)]];
    canonicalize_equivalences(&mut equivalences);
    assert_eq!(equivalences, vec![vec![col(0), col(2)]]);
}

#[test]
fn two_inputs_get_complementary_flavors() {
    let ctx = two_input_context();
    let plan = ctx.render_delta_join(&two_input_join(), &Vec::new()).unwrap();
    assert_eq!(plan.paths.len(), 2);
    let mut flavors = Vec::new();
    for path in &plan.paths {
        for stage in &path.stages {
            if let DeltaStage::Lookup { time_flavor, .. } = stage {
                flavors.push(*time_flavor);
            }
        }
    }
    assert_eq!(flavors, vec![TimeFlavor::Alt, TimeFlavor::Neu]);
}

#[test]
fn single_input_is_filter_only() {
    let join = JoinExpr {
        input_arities: vec![2],
        equivalences: Vec::new(),
        implementation: JoinImplementation::DeltaQuery(vec![Vec::new()]),
    };
    let ctx = Context::new(Vec::new());
    let predicates = vec![gt(col(0), lit_int(5))];
    let plan = ctx.render_delta_join(&join, &predicates).unwrap();
    assert_eq!(plan.paths.len(), 1);
    let stages = &plan.paths[0].stages;
    assert_eq!(stages.len(), 2);
    match &stages[0] {
        DeltaStage::Filter(f) => {
            assert_eq!(f.predicates, vec![gt(col(0), lit_int(5))]);
        }
        _ => panic!("expected the pushed-down filter first"),
    }
    match &stages[1] {
        DeltaStage::Permute { permutation } => {
            assert_eq!(permutation, &vec![0usize, 1]);
        }
        _ => panic!("expected the final permutation"),
    }
}

#[test]
fn root_predicate_is_staged_before_any_lookup() {
    let ctx = two_input_context();
    let predicates = vec![gt(col(0), lit_int(5))];
    let plan = ctx.render_delta_join(&two_input_join(), &predicates).unwrap();
    match &plan.paths[0].stages[0] {
        DeltaStage::Filter(f) => {
            assert_eq!(f.predicates, vec![gt(col(0), lit_int(5))]);
        }
        _ => panic!("the root-only predicate must stand before the first lookup"),
    }
}

#[test]
fn late_equivalence_collapses_to_filter() {
    // R(a), S(a,b), T(b,a); {R.a, S.a, T.a} and {S.b, T.b}.
    let join = JoinExpr {
        input_arities: vec![1, 2, 2],
        equivalences: vec![vec![col(0), col(1), col(4)], vec![col(2), col(3)]],
        implementation: JoinImplementation::DeltaQuery(vec![
            vec![step(1, vec![col(0)]), step(2, vec![col(0)])],
            vec![step(0, vec![col(0)]), step(2, vec![col(0)])],
            vec![step(1, vec![col(1)]), step(0, vec![col(0)])],
        ]),
    };
    let ctx = Context::new(vec![
        entry(1, vec![col(0)]),
        entry(2, vec![col(0)]),
        entry(0, vec![col(0)]),
        entry(1, vec![col(1)]),
    ]);
    let plan = ctx.render_delta_join(&join, &Vec::new()).unwrap();
    // Delta stream rooted at R: lookup S, lookup T, then the residual
    // equivalence R.a = T.a collapses to a filter once T's columns arrive.
    let stages = &plan.paths[0].stages;
    assert_eq!(stages.len(), 4);
    assert!(matches!(stages[0], DeltaStage::Lookup { .. }));
    assert!(matches!(stages[1], DeltaStage::Lookup { .. }));
    match &stages[2] {
        DeltaStage::Filter(f) => {
            assert!(f.predicates.is_empty());
            assert_eq!(f.equivalences, vec![vec![col(0), col(4)]]);
        }
        _ => panic!("expected the late equivalence filter"),
    }
    assert!(matches!(stages[3], DeltaStage::Permute { .. }));
}

#[test]
fn error_sources_deduplicate_arrangements() {
    let join = JoinExpr {
        input_arities: vec![1, 2, 1],
        equivalences: vec![vec![col(0), col(1)], vec![col(2), col(3)]],
        implementation: JoinImplementation::DeltaQuery(vec![
            vec![step(1, vec![col(0)]), step(2, vec![col(0)])],
            vec![step(0, vec![col(0)]), step(2, vec![col(0)])],
            vec![step(1, vec![col(1)]), step(0, vec![col(0)])],
        ]),
    };
    let ctx = Context::new(vec![
        entry(1, vec![col(0)]),
        entry(2, vec![col(0)]),
        entry(0, vec![col(0)]),
        entry(1, vec![col(1)]),
    ]);
    let plan = ctx.render_delta_join(&join, &Vec::new()).unwrap();
    // (2,[c0]) is probed by the streams of R and S, (0,[c0]) by those of S
    // and T: each arrangement contributes once, besides the three inputs.
    assert_eq!(plan.error_sources.len(), 7);
    for (i, a) in plan.error_sources.iter().enumerate() {
        for (j, b) in plan.error_sources.iter().enumerate() {
            if i != j {
                assert_ne!(format!("{:?}", a), format!("{:?}", b));
            }
        }
    }
    let arrangement_uses = plan
        .error_sources
        .iter()
        .filter(|s| matches!(s, ErrorSource::Arrangement { .. }))
        .count();
    assert_eq!(arrangement_uses, 4);
}

#[test]
fn rendering_twice_is_identical() {
    let ctx = two_input_context();
    let predicates = vec![gt(col(0), lit_int(5))];
    let plan1 = ctx.render_delta_join(&two_input_join(), &predicates).unwrap();
    let plan2 = ctx.render_delta_join(&two_input_join(), &predicates).unwrap();
    assert_eq!(format!("{:?}", plan1), format!("{:?}", plan2));
}

#[test]
fn non_delta_join_is_refused() {
    let join = JoinExpr {
        input_arities: vec![2, 2],
        equivalences: Vec::new(),
        implementation: JoinImplementation::Differential,
    };
    let ctx = Context::new(Vec::new());
    match ctx.render_delta_join(&join, &Vec::new()) {
        Err(e) => assert_eq!(e, PlanError::NotDeltaQuery),
        Ok(_) => panic!("a non-delta join must be refused"),
    }
}

#[test]
fn missing_arrangement_is_fatal() {
    let ctx = Context::new(vec![entry(0, vec![col(1)])]);
    match ctx.render_delta_join(&two_input_join(), &Vec::new()) {
        Err(e) => assert_eq!(e, PlanError::MissingArrangement { root: 0, step: 0 }),
        Ok(_) => panic!("a lookup without its arrangement must be refused"),
    }
}

#[test]
fn unbound_key_is_fatal() {
    let join = JoinExpr {
        input_arities: vec![2, 2],
        equivalences: Vec::new(),
        implementation: JoinImplementation::DeltaQuery(vec![
            vec![step(1, vec![col(0)])],
            vec![step(0, vec![col(1)])],
        ]),
    };
    let ctx = two_input_context();
    match ctx.render_delta_join(&join, &Vec::new()) {
        Err(e) => assert_eq!(e, PlanError::UnboundKey { root: 0, step: 0 }),
        Ok(_) => panic!("a key with no bound equivalent must be refused"),
    }
}
