//! A verified evaluator for rendered delta streams over finite batches of
//! updates: the reference semantics of the dataflow the renderer describes.

use vstd::prelude::*;

use crate::expr::{eval, eval_spec, expr_wf, exprs_wf, EvalError, ScalarExpr};
use crate::filter::{filter_row, filter_row_spec, filter_stage_wf, FilterStage};
use crate::mapper::classes_view;
use crate::render::{stage_views, DeltaJoinPlan, DeltaPathPlan, DeltaStage, StageView, TimeFlavor};
use crate::row::{row_concat, row_eq, Datum, Row};

verus! {

/// An update: a row, a logical time, and a signed multiplicity.
#[derive(Debug)]
pub struct Update {
    pub row: Row,
    pub time: u64,
    pub diff: i64,
}

/// The mathematical shape of an update.
pub struct UpdateV {
    pub row: Seq<Datum>,
    pub time: u64,
    pub diff: int,
}

impl View for Update {
    type V = UpdateV;

    open spec fn view(&self) -> UpdateV {
        UpdateV { row: self.row@, time: self.time, diff: self.diff as int }
    }
}

/// An update shifted into the error channel: the error it carries, at the
/// offending update's time and multiplicity.
#[derive(Debug)]
pub struct ErrorUpdate {
    pub error: EvalError,
    pub time: u64,
    pub diff: i64,
}

pub struct ErrorUpdateV {
    pub error: EvalError,
    pub time: u64,
    pub diff: int,
}

impl View for ErrorUpdate {
    type V = ErrorUpdateV;

    open spec fn view(&self) -> ErrorUpdateV {
        ErrorUpdateV { error: self.error, time: self.time, diff: self.diff as int }
    }
}

pub open spec fn updates_view(v: Seq<Update>) -> Seq<UpdateV> {
    v.map_values(|u: Update| u@)
}

pub open spec fn errors_view(v: Seq<ErrorUpdate>) -> Seq<ErrorUpdateV> {
    v.map_values(|u: ErrorUpdate| u@)
}

pub open spec fn inputs_view(v: Seq<Vec<Update>>) -> Seq<Seq<UpdateV>> {
    v.map_values(|c: Vec<Update>| updates_view(c@))
}

/// Every multiplicity is `-1`, `0` or `1`; the executable evaluator asks
/// this of its inputs so that multiplying multiplicities cannot overflow.
pub open spec fn unit_diffs(us: Seq<UpdateV>) -> bool {
    forall|i: int| 0 <= i < us.len() ==> -1 <= (#[trigger] us[i]).diff <= 1
}

/// Every row has `arity` columns.
pub open spec fn rows_arity(us: Seq<UpdateV>, arity: int) -> bool {
    forall|i: int| 0 <= i < us.len() ==> (#[trigger] us[i]).row.len() == arity
}

/// Each expression evaluated on `row`, left to right; the first error wins.
pub open spec fn eval_exprs_spec(exprs: Seq<ScalarExpr>, row: Seq<Datum>) -> Result<
    Seq<Datum>,
    EvalError,
>
    decreases exprs.len(),
{
    if exprs.len() == 0 {
        Ok(Seq::empty())
    } else {
        match eval_exprs_spec(exprs.drop_last(), row) {
            Err(e) => Err(e),
            Ok(init) => match eval_spec(exprs.last(), row) {
                Err(e) => Err(e),
                Ok(d) => Ok(init.push(d)),
            },
        }
    }
}

pub proof fn lemma_eval_exprs_err(exprs: Seq<ScalarExpr>, row: Seq<Datum>, m: int)
    requires
        0 <= m <= exprs.len(),
        eval_exprs_spec(exprs.take(m), row) is Err,
    ensures
        eval_exprs_spec(exprs, row) == eval_exprs_spec(exprs.take(m), row),
    decreases exprs.len(),
{
    if exprs.len() == m {
        assert(exprs.take(m) =~= exprs);
    } else {
        assert(exprs.drop_last().take(m) =~= exprs.take(m));
        lemma_eval_exprs_err(exprs.drop_last(), row, m);
    }
}

/// Evaluates a key-expression list on one row.
pub fn eval_exprs(exprs: &Vec<ScalarExpr>, row: &Row) -> (r: Result<Vec<Datum>, EvalError>)
    requires
        exprs_wf(exprs@, row@.len() as int),
    ensures
        (match r {
            Ok(ds) => eval_exprs_spec(exprs@, row@) == Ok::<Seq<Datum>, EvalError>(ds@),
            Err(e) => eval_exprs_spec(exprs@, row@) == Err::<Seq<Datum>, EvalError>(e),
        }),
{
    let mut out: Vec<Datum> = Vec::new();
    proof {
        assert(exprs@.take(0) =~= Seq::<ScalarExpr>::empty());
    }
    let mut k: usize = 0;
    while k < exprs.len()
        invariant
            k <= exprs@.len(),
            exprs_wf(exprs@, row@.len() as int),
            eval_exprs_spec(exprs@.take(k as int), row@) == Ok::<Seq<Datum>, EvalError>(out@),
        decreases exprs@.len() - k,
    {
        proof {
            assert(exprs@.take(k + 1).drop_last() =~= exprs@.take(k as int));
            assert(exprs@.take(k + 1).last() == exprs@[k as int]);
        }
        match eval(&exprs[k], row) {
            Err(e) => {
                proof {
                    assert(eval_exprs_spec(exprs@.take(k + 1), row@) == Err::<
                        Seq<Datum>,
                        EvalError,
                    >(e));
                    lemma_eval_exprs_err(exprs@, row@, k + 1);
                }
                return Err(e);
            }
            Ok(d) => {
                out.push(d);
            }
        }
        k += 1;
    }
    proof {
        assert(exprs@.take(exprs@.len() as int) =~= exprs@);
    }
    Ok(out)
}

/// Whether an arrangement update at `tv` is visible to a stream update at
/// `tu`: strictly earlier times always, the same time only when the
/// arrangement is imported at `neu` — the stream update itself stands at
/// `alt(t)`, and `alt(t) < neu(t)` under the refined order.
pub open spec fn visible_at(tv: u64, tu: u64, flavor: TimeFlavor) -> bool {
    tv < tu || (tv == tu && flavor is Neu)
}

/// The asymmetric alt/neu assignment is exclusive and exhaustive: given one
/// update on each of two inputs, exactly one of the two delta streams
/// rooted at them observes the other's update on its peer side — the
/// stream consulting its peer at `alt` sees only strictly earlier updates,
/// the one consulting at `neu` also the concurrent ones. This is what
/// prevents both double counting and omission for concurrent updates.
pub proof fn lemma_alt_neu_exclusive(r: int, p: int, tr: u64, tp: u64)
    requires
        r < p,
    ensures
        visible_at(tp, tr, crate::render::flavor_rule(r, p)) != visible_at(
            tr,
            tp,
            crate::render::flavor_rule(p, r),
        ),
{
}

/// The extensions of one working update by every visible, key-matching
/// arrangement update: `(row ++ peer_row, t, d1 * d2)`, in arrangement order.
pub open spec fn lookup_matches(
    u: UpdateV,
    arrangement: Seq<UpdateV>,
    arrangement_key: Seq<ScalarExpr>,
    key: Seq<Datum>,
    flavor: TimeFlavor,
) -> Seq<UpdateV>
    decreases arrangement.len(),
{
    if arrangement.len() == 0 {
        Seq::empty()
    } else {
        let init = lookup_matches(u, arrangement.drop_last(), arrangement_key, key, flavor);
        let v = arrangement.last();
        if visible_at(v.time, u.time, flavor) && eval_exprs_spec(arrangement_key, v.row) == Ok::<
            Seq<Datum>,
            EvalError,
        >(key) {
            init.push(UpdateV { row: u.row + v.row, time: u.time, diff: u.diff * v.diff })
        } else {
            init
        }
    }
}

/// The streaming equi-join of a working update stream with a peer
/// arrangement: per update, the probe key is evaluated (errors shift the
/// update into the error stream) and every visible matching arrangement
/// update extends the row.
pub open spec fn lookup_spec(
    updates: Seq<UpdateV>,
    arrangement: Seq<UpdateV>,
    arrangement_key: Seq<ScalarExpr>,
    probe_key: Seq<ScalarExpr>,
    flavor: TimeFlavor,
) -> (Seq<UpdateV>, Seq<ErrorUpdateV>)
    decreases updates.len(),
{
    if updates.len() == 0 {
        (Seq::empty(), Seq::empty())
    } else {
        let rest = lookup_spec(updates.drop_last(), arrangement, arrangement_key, probe_key, flavor);
        let u = updates.last();
        match eval_exprs_spec(probe_key, u.row) {
            Err(e) => (rest.0, rest.1.push(ErrorUpdateV { error: e, time: u.time, diff: u.diff })),
            Ok(key) => (
                rest.0 + lookup_matches(u, arrangement, arrangement_key, key, flavor),
                rest.1,
            ),
        }
    }
}

/// Constructs the lookup: joins each working update against the visible
/// slice of the peer arrangement and appends the peer's columns.
pub fn build_lookup(
    updates: &Vec<Update>,
    arrangement: &Vec<Update>,
    arrangement_key: &Vec<ScalarExpr>,
    probe_key: &Vec<ScalarExpr>,
    flavor: TimeFlavor,
) -> (r: (Vec<Update>, Vec<ErrorUpdate>))
    requires
        unit_diffs(updates_view(updates@)),
        unit_diffs(updates_view(arrangement@)),
        forall|i: int| 0 <= i < updates@.len() ==> exprs_wf(
            probe_key@,
            (#[trigger] updates@[i])@.row.len() as int,
        ),
        forall|i: int| 0 <= i < arrangement@.len() ==> exprs_wf(
            arrangement_key@,
            (#[trigger] arrangement@[i])@.row.len() as int,
        ),
    ensures
        updates_view(r.0@) == lookup_spec(
            updates_view(updates@),
            updates_view(arrangement@),
            arrangement_key@,
            probe_key@,
            flavor,
        ).0,
        errors_view(r.1@) == lookup_spec(
            updates_view(updates@),
            updates_view(arrangement@),
            arrangement_key@,
            probe_key@,
            flavor,
        ).1,
{
    let ghost uv = updates_view(updates@);
    let ghost av = updates_view(arrangement@);
    let mut oks: Vec<Update> = Vec::new();
    let mut errs: Vec<ErrorUpdate> = Vec::new();
    proof {
        assert(uv.take(0) =~= Seq::<UpdateV>::empty());
    }
    let mut i: usize = 0;
    while i < updates.len()
        invariant
            i <= updates@.len(),
            uv == updates_view(updates@),
            av == updates_view(arrangement@),
            uv.len() == updates@.len(),
            av.len() == arrangement@.len(),
            forall|j: int| 0 <= j < updates@.len() ==> (#[trigger] updates@[j])@ == uv[j],
            forall|j: int| 0 <= j < arrangement@.len() ==> (#[trigger] arrangement@[j])@ == av[j],
            unit_diffs(uv),
            unit_diffs(av),
            forall|j: int| 0 <= j < uv.len() ==> exprs_wf(
                probe_key@,
                (#[trigger] uv[j]).row.len() as int,
            ),
            forall|j: int| 0 <= j < av.len() ==> exprs_wf(
                arrangement_key@,
                (#[trigger] av[j]).row.len() as int,
            ),
            updates_view(oks@) == lookup_spec(
                uv.take(i as int),
                av,
                arrangement_key@,
                probe_key@,
                flavor,
            ).0,
            errors_view(errs@) == lookup_spec(
                uv.take(i as int),
                av,
                arrangement_key@,
                probe_key@,
                flavor,
            ).1,
        decreases updates@.len() - i,
    {
        proof {
            assert(uv.take(i + 1).drop_last() =~= uv.take(i as int));
            assert(uv.take(i + 1).last() == uv[i as int]);
        }
        let u = &updates[i];
        match eval_exprs(probe_key, &u.row) {
            Err(e) => {
                let ghost before = errors_view(errs@);
                errs.push(ErrorUpdate { error: e, time: u.time, diff: u.diff });
                proof {
                    assert(errors_view(errs@) =~= before.push(
                        ErrorUpdateV { error: e, time: u@.time, diff: u@.diff },
                    ));
                }
            }
            Ok(key_datums) => {
                let key = Row::new(key_datums);
                proof {
                    assert(av.take(0) =~= Seq::<UpdateV>::empty());
                }
                let mut j: usize = 0;
                while j < arrangement.len()
                    invariant
                        j <= arrangement@.len(),
                        av == updates_view(arrangement@),
                        av.len() == arrangement@.len(),
                        forall|t: int| 0 <= t < arrangement@.len() ==> (#[trigger] arrangement@[t])@
                            == av[t],
                        unit_diffs(av),
                        -1 <= u@.diff <= 1,
                        eval_exprs_spec(probe_key@, u@.row) == Ok::<Seq<Datum>, EvalError>(key@),
                        updates_view(oks@) == lookup_spec(
                            uv.take(i as int),
                            av,
                            arrangement_key@,
                            probe_key@,
                            flavor,
                        ).0 + lookup_matches(u@, av.take(j as int), arrangement_key@, key@, flavor),
                        forall|t: int| 0 <= t < av.len() ==> exprs_wf(
                            arrangement_key@,
                            (#[trigger] av[t]).row.len() as int,
                        ),
                    decreases arrangement@.len() - j,
                {
                    proof {
                        assert(av.take(j + 1).drop_last() =~= av.take(j as int));
                        assert(av.take(j + 1).last() == av[j as int]);
                    }
                    let v = &arrangement[j];
                    let visible = v.time < u.time || (v.time == u.time && (match flavor {
                        TimeFlavor::Neu => true,
                        TimeFlavor::Alt => false,
                    }));
                    if visible {
                        match eval_exprs(arrangement_key, &v.row) {
                            Ok(vkey_datums) => {
                                let vkey = Row::new(vkey_datums);
                                if row_eq(&vkey, &key) {
                                    proof {
                                        assert(-1 <= u@.diff * v@.diff <= 1) by (nonlinear_arith)
                                            requires
                                                -1 <= u@.diff <= 1,
                                                -1 <= v@.diff <= 1,
                                        ;
                                    }
                                    let ghost before = updates_view(oks@);
                                    let new_row = row_concat(&u.row, &v.row);
                                    oks.push(Update {
                                        row: new_row,
                                        time: u.time,
                                        diff: u.diff * v.diff,
                                    });
                                    proof {
                                        assert(updates_view(oks@) =~= before.push(
                                            UpdateV {
                                                row: u@.row + v@.row,
                                                time: u@.time,
                                                diff: u@.diff * v@.diff,
                                            },
                                        ));
                                    }
                                }
                            }
                            Err(_) => {
                                // The arrangement was keyed when it was
                                // built; a row it failed to key never
                                // entered it, so it cannot match.
                            }
                        }
                    }
                    j += 1;
                }
                proof {
                    assert(av.take(av.len() as int) =~= av);
                }
            }
        }
        i += 1;
    }
    proof {
        assert(uv.take(uv.len() as int) =~= uv);
    }
    (oks, errs)
}

/// The staged filter applied to a stream: kept, dropped, or shifted into
/// the error channel, per row.
pub open spec fn filter_eval_spec(
    predicates: Seq<ScalarExpr>,
    equivalences: Seq<Seq<ScalarExpr>>,
    us: Seq<UpdateV>,
) -> (Seq<UpdateV>, Seq<ErrorUpdateV>)
    decreases us.len(),
{
    if us.len() == 0 {
        (Seq::empty(), Seq::empty())
    } else {
        let rest = filter_eval_spec(predicates, equivalences, us.drop_last());
        let u = us.last();
        match filter_row_spec(predicates, equivalences, u.row) {
            Err(e) => (rest.0, rest.1.push(ErrorUpdateV { error: e, time: u.time, diff: u.diff })),
            Ok(b) => {
                if b {
                    (rest.0.push(u), rest.1)
                } else {
                    rest
                }
            }
        }
    }
}

/// Applies a staged filter to a batch of updates.
pub fn eval_filter(stage: &FilterStage, updates: &Vec<Update>) -> (r: (
    Vec<Update>,
    Vec<ErrorUpdate>,
))
    requires
        forall|i: int| 0 <= i < updates@.len() ==> filter_stage_wf(
            stage.predicates@,
            classes_view(stage.equivalences@),
            (#[trigger] updates@[i])@.row.len() as int,
        ),
    ensures
        updates_view(r.0@) == filter_eval_spec(
            stage.predicates@,
            classes_view(stage.equivalences@),
            updates_view(updates@),
        ).0,
        errors_view(r.1@) == filter_eval_spec(
            stage.predicates@,
            classes_view(stage.equivalences@),
            updates_view(updates@),
        ).1,
{
    let ghost uv = updates_view(updates@);
    let ghost preds = stage.predicates@;
    let ghost tuples = classes_view(stage.equivalences@);
    let mut oks: Vec<Update> = Vec::new();
    let mut errs: Vec<ErrorUpdate> = Vec::new();
    proof {
        assert(uv.take(0) =~= Seq::<UpdateV>::empty());
    }
    let mut i: usize = 0;
    while i < updates.len()
        invariant
            i <= updates@.len(),
            uv == updates_view(updates@),
            uv.len() == updates@.len(),
            preds == stage.predicates@,
            tuples == classes_view(stage.equivalences@),
            forall|j: int| 0 <= j < updates@.len() ==> (#[trigger] updates@[j])@ == uv[j],
            forall|j: int| 0 <= j < uv.len() ==> filter_stage_wf(
                preds,
                tuples,
                (#[trigger] uv[j]).row.len() as int,
            ),
            updates_view(oks@) == filter_eval_spec(preds, tuples, uv.take(i as int)).0,
            errors_view(errs@) == filter_eval_spec(preds, tuples, uv.take(i as int)).1,
        decreases updates@.len() - i,
    {
        proof {
            assert(uv.take(i + 1).drop_last() =~= uv.take(i as int));
            assert(uv.take(i + 1).last() == uv[i as int]);
        }
        let u = &updates[i];
        match filter_row(stage, &u.row) {
            Err(e) => {
                let ghost before = errors_view(errs@);
                errs.push(ErrorUpdate { error: e, time: u.time, diff: u.diff });
                proof {
                    assert(errors_view(errs@) =~= before.push(
                        ErrorUpdateV { error: e, time: u@.time, diff: u@.diff },
                    ));
                }
            }
            Ok(keep) => {
                if keep {
                    let ghost before = updates_view(oks@);
                    oks.push(Update { row: u.row.clone(), time: u.time, diff: u.diff });
                    proof {
                        assert(updates_view(oks@) =~= before.push(uv[i as int]));
                    }
                }
            }
        }
        i += 1;
    }
    proof {
        assert(uv.take(uv.len() as int) =~= uv);
    }
    (oks, errs)
}

/// A row re-packed under a permutation: output column `k` is working column
/// `perm[k]`.
pub open spec fn permute_row(row: Seq<Datum>, perm: Seq<usize>) -> Seq<Datum> {
    Seq::new(perm.len(), |k: int| row[perm[k] as int])
}

pub open spec fn permute_eval_spec(perm: Seq<usize>, us: Seq<UpdateV>) -> Seq<UpdateV> {
    us.map_values(|u: UpdateV| UpdateV { row: permute_row(u.row, perm), time: u.time, diff: u.diff })
}

/// Re-packs each update's row under the permutation.
pub fn eval_permute(permutation: &Vec<usize>, updates: &Vec<Update>) -> (r: Vec<Update>)
    requires
        forall|i: int, k: int|
            0 <= i < updates@.len() && 0 <= k < permutation@.len() ==> ((
            #[trigger] permutation@[k]) as int) < (#[trigger] updates@[i])@.row.len(),
    ensures
        updates_view(r@) == permute_eval_spec(permutation@, updates_view(updates@)),
{
    let ghost uv = updates_view(updates@);
    let mut out: Vec<Update> = Vec::new();
    let mut i: usize = 0;
    while i < updates.len()
        invariant
            i <= updates@.len(),
            uv == updates_view(updates@),
            uv.len() == updates@.len(),
            forall|j: int| 0 <= j < updates@.len() ==> (#[trigger] updates@[j])@ == uv[j],
            forall|j: int, k: int|
                0 <= j < uv.len() && 0 <= k < permutation@.len() ==> ((
                #[trigger] permutation@[k]) as int) < (#[trigger] uv[j]).row.len(),
            out@.len() == i,
            forall|j: int| 0 <= j < i ==> (#[trigger] out@[j])@ == (UpdateV {
                row: permute_row(uv[j].row, permutation@),
                time: uv[j].time,
                diff: uv[j].diff,
            }),
        decreases updates@.len() - i,
    {
        let u = &updates[i];
        let mut datums: Vec<Datum> = Vec::new();
        let mut k: usize = 0;
        while k < permutation.len()
            invariant
                k <= permutation@.len(),
                i < uv.len(),
                uv == updates_view(updates@),
                uv.len() == updates@.len(),
                u@ == uv[i as int],
                forall|t: int| 0 <= t < permutation@.len() ==> ((
                #[trigger] permutation@[t]) as int) < u@.row.len(),
                datums@.len() == k,
                forall|t: int| 0 <= t < k ==> datums@[t] == u@.row[(
                #[trigger] permutation@[t]) as int],
            decreases permutation@.len() - k,
        {
            datums.push(u.row.datums[permutation[k]]);
            k += 1;
        }
        proof {
            assert(datums@ =~= permute_row(uv[i as int].row, permutation@));
        }
        out.push(Update { row: Row::new(datums), time: u.time, diff: u.diff });
        i += 1;
    }
    proof {
        assert(updates_view(out@) =~= permute_eval_spec(permutation@, uv));
    }
    out
}

// ------------------------------------------------------------------
// Evaluating a whole delta stream, then a whole delta join
// ------------------------------------------------------------------

/// One stage applied to the working stream; errors accumulate.
pub open spec fn stage_eval_spec(
    stage: StageView,
    inputs: Seq<Seq<UpdateV>>,
    state: (Seq<UpdateV>, Seq<ErrorUpdateV>),
) -> (Seq<UpdateV>, Seq<ErrorUpdateV>) {
    match stage {
        StageView::Filter { predicates, equivalences } => {
            let fe = filter_eval_spec(predicates, equivalences, state.0);
            (fe.0, state.1 + fe.1)
        }
        StageView::Lookup { peer, arrangement_key, probe_key, time_flavor, .. } => {
            let le = lookup_spec(
                state.0,
                inputs[peer as int],
                arrangement_key,
                probe_key,
                time_flavor,
            );
            (le.0, state.1 + le.1)
        }
        StageView::Permute { permutation } => (permute_eval_spec(permutation, state.0), state.1),
    }
}

/// The working stream and error stream after the first `n` stages of the
/// delta stream rooted at `root`.
pub open spec fn path_eval_spec(
    stages: Seq<StageView>,
    inputs: Seq<Seq<UpdateV>>,
    root: usize,
    n: int,
) -> (Seq<UpdateV>, Seq<ErrorUpdateV>)
    decreases n,
{
    if n <= 0 {
        (inputs[root as int], Seq::empty())
    } else {
        stage_eval_spec(stages[n - 1], inputs, path_eval_spec(stages, inputs, root, n - 1))
    }
}

/// Inputs fit the declared arities and carry unit multiplicities.
pub open spec fn inputs_ok(inputs: Seq<Seq<UpdateV>>, arities: Seq<usize>) -> bool {
    &&& inputs.len() == arities.len()
    &&& forall|i: int| 0 <= i < inputs.len() ==> rows_arity(#[trigger] inputs[i], arities[i] as int)
    &&& forall|i: int| 0 <= i < inputs.len() ==> unit_diffs(#[trigger] inputs[i])
}

/// The stages are well-typed against the working-row arity they meet (see
/// `stages_wf`), over inputs that fit the same arities: what the evaluator
/// needs to run them.
pub open spec fn stages_evalable(
    stages: Seq<StageView>,
    inputs: Seq<Seq<UpdateV>>,
    arities: Seq<usize>,
    arity: int,
) -> bool {
    inputs.len() == arities.len() && crate::render::stages_wf(stages, arities, arity)
}

/// Filtering keeps row widths and unit multiplicities.
pub proof fn lemma_filter_eval_props(
    predicates: Seq<ScalarExpr>,
    equivalences: Seq<Seq<ScalarExpr>>,
    us: Seq<UpdateV>,
    arity: int,
)
    requires
        rows_arity(us, arity),
        unit_diffs(us),
    ensures
        rows_arity(filter_eval_spec(predicates, equivalences, us).0, arity),
        unit_diffs(filter_eval_spec(predicates, equivalences, us).0),
    decreases us.len(),
{
    if us.len() > 0 {
        assert(forall|i: int|
            0 <= i < us.drop_last().len() ==> #[trigger] us.drop_last()[i] == us[i]);
        lemma_filter_eval_props(predicates, equivalences, us.drop_last(), arity);
        assert(us.last() == us[us.len() - 1]);
    }
}

/// A lookup's extensions have the concatenated width and unit multiplicities.
pub proof fn lemma_lookup_matches_props(
    u: UpdateV,
    arrangement: Seq<UpdateV>,
    arrangement_key: Seq<ScalarExpr>,
    key: Seq<Datum>,
    flavor: TimeFlavor,
    peer_arity: int,
)
    requires
        rows_arity(arrangement, peer_arity),
        unit_diffs(arrangement),
        -1 <= u.diff <= 1,
    ensures
        rows_arity(
            lookup_matches(u, arrangement, arrangement_key, key, flavor),
            u.row.len() + peer_arity,
        ),
        unit_diffs(lookup_matches(u, arrangement, arrangement_key, key, flavor)),
    decreases arrangement.len(),
{
    if arrangement.len() > 0 {
        assert(forall|i: int|
            0 <= i < arrangement.drop_last().len() ==> #[trigger] arrangement.drop_last()[i]
                == arrangement[i]);
        lemma_lookup_matches_props(
            u,
            arrangement.drop_last(),
            arrangement_key,
            key,
            flavor,
            peer_arity,
        );
        let v = arrangement.last();
        assert(v == arrangement[arrangement.len() - 1]);
        assert(-1 <= u.diff * v.diff <= 1) by (nonlinear_arith)
            requires
                -1 <= u.diff <= 1,
                -1 <= v.diff <= 1,
        ;
    }
}

pub proof fn lemma_lookup_spec_props(
    updates: Seq<UpdateV>,
    arrangement: Seq<UpdateV>,
    arrangement_key: Seq<ScalarExpr>,
    probe_key: Seq<ScalarExpr>,
    flavor: TimeFlavor,
    arity: int,
    peer_arity: int,
)
    requires
        rows_arity(updates, arity),
        unit_diffs(updates),
        rows_arity(arrangement, peer_arity),
        unit_diffs(arrangement),
    ensures
        rows_arity(
            lookup_spec(updates, arrangement, arrangement_key, probe_key, flavor).0,
            arity + peer_arity,
        ),
        unit_diffs(lookup_spec(updates, arrangement, arrangement_key, probe_key, flavor).0),
    decreases updates.len(),
{
    if updates.len() > 0 {
        assert(forall|i: int|
            0 <= i < updates.drop_last().len() ==> #[trigger] updates.drop_last()[i]
                == updates[i]);
        lemma_lookup_spec_props(
            updates.drop_last(),
            arrangement,
            arrangement_key,
            probe_key,
            flavor,
            arity,
            peer_arity,
        );
        let u = updates.last();
        assert(u == updates[updates.len() - 1]);
        match eval_exprs_spec(probe_key, u.row) {
            Err(_) => {}
            Ok(key) => {
                lemma_lookup_matches_props(
                    u,
                    arrangement,
                    arrangement_key,
                    key,
                    flavor,
                    peer_arity,
                );
                let rest = lookup_spec(
                    updates.drop_last(),
                    arrangement,
                    arrangement_key,
                    probe_key,
                    flavor,
                );
                let m = lookup_matches(u, arrangement, arrangement_key, key, flavor);
                assert forall|i: int|
                    0 <= i < (rest.0 + m).len() implies (#[trigger] (rest.0 + m)[i]).row.len()
                    == arity + peer_arity && -1 <= (rest.0 + m)[i].diff <= 1 by {
                    if i < rest.0.len() {
                        assert((rest.0 + m)[i] == rest.0[i]);
                    } else {
                        assert((rest.0 + m)[i] == m[i - rest.0.len()]);
                    }
                }
            }
        }
    }
}

/// Copies a batch of updates.
pub fn clone_updates(v: &Vec<Update>) -> (r: Vec<Update>)
    ensures
        updates_view(r@) == updates_view(v@),
{
    let mut out: Vec<Update> = Vec::new();
    let mut i: usize = 0;
    while i < v.len()
        invariant
            i <= v@.len(),
            out@.len() == i,
            forall|j: int| 0 <= j < i ==> (#[trigger] out@[j])@ == v@[j]@,
        decreases v@.len() - i,
    {
        let u = &v[i];
        out.push(Update { row: u.row.clone(), time: u.time, diff: u.diff });
        i += 1;
    }
    proof {
        assert(updates_view(out@) =~= updates_view(v@));
    }
    out
}

/// Evaluates one rendered delta stream over finite input batches: the
/// stream's contribution to the join's changelog, and its error stream.
pub fn eval_delta_path(
    path: &DeltaPathPlan,
    inputs: &Vec<Vec<Update>>,
    arities: &Vec<usize>,
) -> (r: (Vec<Update>, Vec<ErrorUpdate>))
    requires
        (path.root as int) < arities@.len(),
        inputs_ok(inputs_view(inputs@), arities@),
        stages_evalable(
            stage_views(path.stages@),
            inputs_view(inputs@),
            arities@,
            arities@[path.root as int] as int,
        ),
    ensures
        updates_view(r.0@) == path_eval_spec(
            stage_views(path.stages@),
            inputs_view(inputs@),
            path.root,
            stage_views(path.stages@).len() as int,
        ).0,
        errors_view(r.1@) == path_eval_spec(
            stage_views(path.stages@),
            inputs_view(inputs@),
            path.root,
            stage_views(path.stages@).len() as int,
        ).1,
{
    let ghost svs = stage_views(path.stages@);
    let ghost iv = inputs_view(inputs@);
    let root = path.root;
    let mut work: Vec<Update> = clone_updates(&inputs[root]);
    let mut errs: Vec<ErrorUpdate> = Vec::new();
    let ghost mut cur_arity: int = arities@[root as int] as int;
    proof {
        assert(iv[root as int] == updates_view(inputs@[root as int]@));
        assert(errors_view(errs@) =~= Seq::<ErrorUpdateV>::empty());
        assert(svs.skip(0) =~= svs);
    }
    let mut s: usize = 0;
    while s < path.stages.len()
        invariant
            s <= path.stages@.len(),
            svs == stage_views(path.stages@),
            svs.len() == path.stages@.len(),
            forall|t: int| 0 <= t < path.stages@.len() ==> svs[t] == (#[trigger] path.stages@[t])@,
            iv == inputs_view(inputs@),
            iv.len() == inputs@.len(),
            forall|t: int| 0 <= t < inputs@.len() ==> iv[t] == updates_view(
                (#[trigger] inputs@[t])@,
            ),
            root == path.root,
            (root as int) < arities@.len(),
            inputs_ok(iv, arities@),
            stages_evalable(svs.skip(s as int), iv, arities@, cur_arity),
            updates_view(work@) == path_eval_spec(svs, iv, root, s as int).0,
            errors_view(errs@) == path_eval_spec(svs, iv, root, s as int).1,
            rows_arity(updates_view(work@), cur_arity),
            unit_diffs(updates_view(work@)),
        decreases path.stages@.len() - s,
    {
        proof {
            assert(svs.skip(s as int)[0] == svs[s as int]);
            assert(svs.skip(s as int).drop_first() =~= svs.skip(s + 1));
        }
        let ghost workv = updates_view(work@);
        let ghost errsv = errors_view(errs@);
        match &path.stages[s] {
            DeltaStage::Filter(stage) => {
                proof {
                    assert forall|j: int| 0 <= j < work@.len() implies filter_stage_wf(
                        stage.predicates@,
                        classes_view(stage.equivalences@),
                        (#[trigger] work@[j])@.row.len() as int,
                    ) by {
                        assert(updates_view(work@)[j] == work@[j]@);
                    }
                }
                let (o, mut e) = eval_filter(stage, &work);
                proof {
                    lemma_filter_eval_props(
                        stage.predicates@,
                        classes_view(stage.equivalences@),
                        workv,
                        cur_arity,
                    );
                }
                work = o;
                let ghost ev = errors_view(e@);
                errs.append(&mut e);
                proof {
                    assert(errors_view(errs@) =~= errsv + ev);
                }
            }
            DeltaStage::Lookup { peer, arrangement_key, probe_key, time_flavor, .. } => {
                proof {
                    assert(iv[*peer as int] == updates_view(inputs@[*peer as int]@));
                    assert(rows_arity(iv[*peer as int], arities@[*peer as int] as int));
                    assert(unit_diffs(iv[*peer as int]));
                    assert forall|j: int| 0 <= j < work@.len() implies exprs_wf(
                        probe_key@,
                        (#[trigger] work@[j])@.row.len() as int,
                    ) by {
                        assert(updates_view(work@)[j] == work@[j]@);
                    }
                    assert forall|j: int| 0 <= j < inputs@[*peer as int]@.len() implies exprs_wf(
                        arrangement_key@,
                        (#[trigger] inputs@[*peer as int]@[j])@.row.len() as int,
                    ) by {
                        assert(updates_view(inputs@[*peer as int]@)[j] == inputs@[*peer
                            as int]@[j]@);
                    }
                }
                let (o, mut e) = build_lookup(
                    &work,
                    &inputs[*peer],
                    arrangement_key,
                    probe_key,
                    *time_flavor,
                );
                proof {
                    lemma_lookup_spec_props(
                        workv,
                        iv[*peer as int],
                        arrangement_key@,
                        probe_key@,
                        *time_flavor,
                        cur_arity,
                        arities@[*peer as int] as int,
                    );
                    cur_arity = cur_arity + arities@[*peer as int];
                }
                work = o;
                let ghost ev = errors_view(e@);
                errs.append(&mut e);
                proof {
                    assert(errors_view(errs@) =~= errsv + ev);
                }
            }
            DeltaStage::Permute { permutation } => {
                proof {
                    assert forall|j: int, k: int|
                        0 <= j < work@.len() && 0 <= k < permutation@.len() implies ((
                    #[trigger] permutation@[k]) as int) < (#[trigger] work@[j])@.row.len() by {
                        assert(updates_view(work@)[j] == work@[j]@);
                    }
                }
                let o = eval_permute(permutation, &work);
                proof {
                    let pv = permute_eval_spec(permutation@, workv);
                    assert forall|j: int| 0 <= j < pv.len() implies (#[trigger] pv[j]).row.len()
                        == permutation@.len() && -1 <= pv[j].diff <= 1 by {
                        assert(pv[j] == (UpdateV {
                            row: permute_row(workv[j].row, permutation@),
                            time: workv[j].time,
                            diff: workv[j].diff,
                        }));
                    }
                    cur_arity = permutation@.len() as int;
                }
                work = o;
            }
        }
        s += 1;
    }
    (work, errs)
}

// ------------------------------------------------------------------
// Linearity of a delta stream in its working updates
// ------------------------------------------------------------------

/// The same update with its multiplicity negated: the retraction of `u`.
pub open spec fn neg_update(u: UpdateV) -> UpdateV {
    UpdateV { row: u.row, time: u.time, diff: -u.diff }
}

pub open spec fn negs(us: Seq<UpdateV>) -> Seq<UpdateV> {
    us.map_values(|u: UpdateV| neg_update(u))
}

pub open spec fn neg_errs(es: Seq<ErrorUpdateV>) -> Seq<ErrorUpdateV> {
    es.map_values(|e: ErrorUpdateV| ErrorUpdateV { error: e.error, time: e.time, diff: -e.diff })
}

/// The net multiplicity that `us` carries for one row at one time.
pub open spec fn sum_for(us: Seq<UpdateV>, row: Seq<Datum>, time: u64) -> int
    decreases us.len(),
{
    if us.len() == 0 {
        0
    } else {
        sum_for(us.drop_last(), row, time) + (if us.last().row == row && us.last().time == time {
            us.last().diff
        } else {
            0
        })
    }
}

pub proof fn lemma_sum_for_concat(a: Seq<UpdateV>, b: Seq<UpdateV>, row: Seq<Datum>, time: u64)
    ensures
        sum_for(a + b, row, time) == sum_for(a, row, time) + sum_for(b, row, time),
    decreases b.len(),
{
    if b.len() == 0 {
        assert(a + b =~= a);
    } else {
        assert((a + b).drop_last() =~= a + b.drop_last());
        assert((a + b).last() == b.last());
        lemma_sum_for_concat(a, b.drop_last(), row, time);
    }
}

pub proof fn lemma_sum_for_negs(us: Seq<UpdateV>, row: Seq<Datum>, time: u64)
    ensures
        sum_for(negs(us), row, time) == -sum_for(us, row, time),
    decreases us.len(),
{
    if us.len() > 0 {
        assert(negs(us).drop_last() =~= negs(us.drop_last()));
        assert(negs(us).last() == neg_update(us.last()));
        lemma_sum_for_negs(us.drop_last(), row, time);
    }
}

/// Filtering distributes over concatenation of the working stream.
pub proof fn lemma_filter_concat(
    predicates: Seq<ScalarExpr>,
    equivalences: Seq<Seq<ScalarExpr>>,
    x: Seq<UpdateV>,
    y: Seq<UpdateV>,
)
    ensures
        filter_eval_spec(predicates, equivalences, x + y).0 == filter_eval_spec(
            predicates,
            equivalences,
            x,
        ).0 + filter_eval_spec(predicates, equivalences, y).0,
        filter_eval_spec(predicates, equivalences, x + y).1 == filter_eval_spec(
            predicates,
            equivalences,
            x,
        ).1 + filter_eval_spec(predicates, equivalences, y).1,
    decreases y.len(),
{
    if y.len() == 0 {
        assert(x + y =~= x);
        assert(filter_eval_spec(predicates, equivalences, x).0 + filter_eval_spec(
            predicates,
            equivalences,
            y,
        ).0 =~= filter_eval_spec(predicates, equivalences, x).0);
        assert(filter_eval_spec(predicates, equivalences, x).1 + filter_eval_spec(
            predicates,
            equivalences,
            y,
        ).1 =~= filter_eval_spec(predicates, equivalences, x).1);
    } else {
        assert((x + y).drop_last() =~= x + y.drop_last());
        assert((x + y).last() == y.last());
        lemma_filter_concat(predicates, equivalences, x, y.drop_last());
        let fx = filter_eval_spec(predicates, equivalences, x);
        let fy = filter_eval_spec(predicates, equivalences, y);
        let fyd = filter_eval_spec(predicates, equivalences, y.drop_last());
        match filter_row_spec(predicates, equivalences, y.last().row) {
            Err(e) => {
                assert(fx.1 + fyd.1.push(
                    ErrorUpdateV { error: e, time: y.last().time, diff: y.last().diff },
                ) =~= (fx.1 + fyd.1).push(
                    ErrorUpdateV { error: e, time: y.last().time, diff: y.last().diff },
                ));
            }
            Ok(b) => {
                if b {
                    assert(fx.0 + fyd.0.push(y.last()) =~= (fx.0 + fyd.0).push(y.last()));
                }
            }
        }
    }
}

/// Filtering the retraction of a stream retracts the filtered stream.
pub proof fn lemma_filter_negs(
    predicates: Seq<ScalarExpr>,
    equivalences: Seq<Seq<ScalarExpr>>,
    x: Seq<UpdateV>,
)
    ensures
        filter_eval_spec(predicates, equivalences, negs(x)).0 == negs(
            filter_eval_spec(predicates, equivalences, x).0,
        ),
        filter_eval_spec(predicates, equivalences, negs(x)).1 == neg_errs(
            filter_eval_spec(predicates, equivalences, x).1,
        ),
    decreases x.len(),
{
    if x.len() == 0 {
        assert(negs(x) =~= Seq::<UpdateV>::empty());
        assert(negs(filter_eval_spec(predicates, equivalences, x).0) =~= Seq::<
            UpdateV,
        >::empty());
        assert(neg_errs(filter_eval_spec(predicates, equivalences, x).1) =~= Seq::<
            ErrorUpdateV,
        >::empty());
    } else {
        assert(negs(x).drop_last() =~= negs(x.drop_last()));
        assert(negs(x).last() == neg_update(x.last()));
        lemma_filter_negs(predicates, equivalences, x.drop_last());
        let fx = filter_eval_spec(predicates, equivalences, x);
        let fxd = filter_eval_spec(predicates, equivalences, x.drop_last());
        match filter_row_spec(predicates, equivalences, x.last().row) {
            Err(e) => {
                assert(neg_errs(fxd.1).push(
                    ErrorUpdateV { error: e, time: x.last().time, diff: -x.last().diff },
                ) =~= neg_errs(fxd.1.push(
                    ErrorUpdateV { error: e, time: x.last().time, diff: x.last().diff },
                )));
            }
            Ok(b) => {
                if b {
                    assert(negs(fxd.0).push(neg_update(x.last())) =~= negs(
                        fxd.0.push(x.last()),
                    ));
                }
            }
        }
    }
}

/// The lookup distributes over concatenation of the working stream.
pub proof fn lemma_lookup_concat(
    x: Seq<UpdateV>,
    y: Seq<UpdateV>,
    arrangement: Seq<UpdateV>,
    arrangement_key: Seq<ScalarExpr>,
    probe_key: Seq<ScalarExpr>,
    flavor: TimeFlavor,
)
    ensures
        lookup_spec(x + y, arrangement, arrangement_key, probe_key, flavor).0 == lookup_spec(
            x,
            arrangement,
            arrangement_key,
            probe_key,
            flavor,
        ).0 + lookup_spec(y, arrangement, arrangement_key, probe_key, flavor).0,
        lookup_spec(x + y, arrangement, arrangement_key, probe_key, flavor).1 == lookup_spec(
            x,
            arrangement,
            arrangement_key,
            probe_key,
            flavor,
        ).1 + lookup_spec(y, arrangement, arrangement_key, probe_key, flavor).1,
    decreases y.len(),
{
    let lx = lookup_spec(x, arrangement, arrangement_key, probe_key, flavor);
    if y.len() == 0 {
        assert(x + y =~= x);
        assert(lx.0 + lookup_spec(y, arrangement, arrangement_key, probe_key, flavor).0
            =~= lx.0);
        assert(lx.1 + lookup_spec(y, arrangement, arrangement_key, probe_key, flavor).1
            =~= lx.1);
    } else {
        assert((x + y).drop_last() =~= x + y.drop_last());
        assert((x + y).last() == y.last());
        lemma_lookup_concat(x, y.drop_last(), arrangement, arrangement_key, probe_key, flavor);
        let lyd = lookup_spec(y.drop_last(), arrangement, arrangement_key, probe_key, flavor);
        let u = y.last();
        match eval_exprs_spec(probe_key, u.row) {
            Err(e) => {
                assert(lx.1 + lyd.1.push(ErrorUpdateV { error: e, time: u.time, diff: u.diff })
                    =~= (lx.1 + lyd.1).push(
                    ErrorUpdateV { error: e, time: u.time, diff: u.diff },
                ));
            }
            Ok(key) => {
                let m = lookup_matches(u, arrangement, arrangement_key, key, flavor);
                assert(lx.0 + (lyd.0 + m) =~= (lx.0 + lyd.0) + m);
            }
        }
    }
}

/// The matches of a retracted update are the retractions of its matches.
pub proof fn lemma_lookup_matches_neg(
    u: UpdateV,
    arrangement: Seq<UpdateV>,
    arrangement_key: Seq<ScalarExpr>,
    key: Seq<Datum>,
    flavor: TimeFlavor,
)
    ensures
        lookup_matches(neg_update(u), arrangement, arrangement_key, key, flavor) == negs(
            lookup_matches(u, arrangement, arrangement_key, key, flavor),
        ),
    decreases arrangement.len(),
{
    if arrangement.len() == 0 {
        assert(negs(lookup_matches(u, arrangement, arrangement_key, key, flavor)) =~= Seq::<
            UpdateV,
        >::empty());
    } else {
        lemma_lookup_matches_neg(u, arrangement.drop_last(), arrangement_key, key, flavor);
        let v = arrangement.last();
        let md = lookup_matches(u, arrangement.drop_last(), arrangement_key, key, flavor);
        if visible_at(v.time, u.time, flavor) && eval_exprs_spec(arrangement_key, v.row) == Ok::<
            Seq<Datum>,
            EvalError,
        >(key) {
            assert((-u.diff) * v.diff == -(u.diff * v.diff)) by (nonlinear_arith);
            assert(negs(md).push(
                neg_update(UpdateV { row: u.row + v.row, time: u.time, diff: u.diff * v.diff }),
            ) =~= negs(md.push(
                UpdateV { row: u.row + v.row, time: u.time, diff: u.diff * v.diff },
            )));
        }
    }
}

/// The lookup of a retracted stream retracts the lookup's output.
pub proof fn lemma_lookup_negs(
    x: Seq<UpdateV>,
    arrangement: Seq<UpdateV>,
    arrangement_key: Seq<ScalarExpr>,
    probe_key: Seq<ScalarExpr>,
    flavor: TimeFlavor,
)
    ensures
        lookup_spec(negs(x), arrangement, arrangement_key, probe_key, flavor).0 == negs(
            lookup_spec(x, arrangement, arrangement_key, probe_key, flavor).0,
        ),
        lookup_spec(negs(x), arrangement, arrangement_key, probe_key, flavor).1 == neg_errs(
            lookup_spec(x, arrangement, arrangement_key, probe_key, flavor).1,
        ),
    decreases x.len(),
{
    if x.len() == 0 {
        assert(negs(x) =~= Seq::<UpdateV>::empty());
        assert(negs(lookup_spec(x, arrangement, arrangement_key, probe_key, flavor).0) =~= Seq::<
            UpdateV,
        >::empty());
        assert(neg_errs(lookup_spec(x, arrangement, arrangement_key, probe_key, flavor).1)
            =~= Seq::<ErrorUpdateV>::empty());
    } else {
        assert(negs(x).drop_last() =~= negs(x.drop_last()));
        assert(negs(x).last() == neg_update(x.last()));
        lemma_lookup_negs(x.drop_last(), arrangement, arrangement_key, probe_key, flavor);
        let lxd = lookup_spec(x.drop_last(), arrangement, arrangement_key, probe_key, flavor);
        let u = x.last();
        match eval_exprs_spec(probe_key, u.row) {
            Err(e) => {
                assert(neg_errs(lxd.1).push(
                    ErrorUpdateV { error: e, time: u.time, diff: -u.diff },
                ) =~= neg_errs(lxd.1.push(
                    ErrorUpdateV { error: e, time: u.time, diff: u.diff },
                )));
            }
            Ok(key) => {
                lemma_lookup_matches_neg(u, arrangement, arrangement_key, key, flavor);
                let m = lookup_matches(u, arrangement, arrangement_key, key, flavor);
                assert(negs(lxd.0) + negs(m) =~= negs(lxd.0 + m));
            }
        }
    }
}

pub proof fn lemma_permute_concat(perm: Seq<usize>, x: Seq<UpdateV>, y: Seq<UpdateV>)
    ensures
        permute_eval_spec(perm, x + y) == permute_eval_spec(perm, x) + permute_eval_spec(
            perm,
            y,
        ),
{
    assert(permute_eval_spec(perm, x + y) =~= permute_eval_spec(perm, x) + permute_eval_spec(
        perm,
        y,
    ));
}

pub proof fn lemma_permute_negs(perm: Seq<usize>, x: Seq<UpdateV>)
    ensures
        permute_eval_spec(perm, negs(x)) == negs(permute_eval_spec(perm, x)),
{
    assert(permute_eval_spec(perm, negs(x)) =~= negs(permute_eval_spec(perm, x)));
}

/// A delta stream's stages run over an explicit initial working stream.
/// `path_eval_spec` is this, started from the root input's batch.
pub open spec fn stages_run(
    stages: Seq<StageView>,
    inputs: Seq<Seq<UpdateV>>,
    n: int,
    init: Seq<UpdateV>,
) -> (Seq<UpdateV>, Seq<ErrorUpdateV>)
    decreases n,
{
    if n <= 0 {
        (init, Seq::empty())
    } else {
        stage_eval_spec(stages[n - 1], inputs, stages_run(stages, inputs, n - 1, init))
    }
}

pub proof fn lemma_path_eval_is_run(
    stages: Seq<StageView>,
    inputs: Seq<Seq<UpdateV>>,
    root: usize,
    n: int,
)
    requires
        0 <= n,
    ensures
        path_eval_spec(stages, inputs, root, n) == stages_run(
            stages,
            inputs,
            n,
            inputs[root as int],
        ),
    decreases n,
{
    if n > 0 {
        lemma_path_eval_is_run(stages, inputs, root, n - 1);
    }
}

/// A delta stream is additive in its working stream: the run of a
/// concatenation is the concatenation of the runs.
pub proof fn lemma_run_concat(
    stages: Seq<StageView>,
    inputs: Seq<Seq<UpdateV>>,
    n: int,
    x: Seq<UpdateV>,
    y: Seq<UpdateV>,
)
    requires
        0 <= n,
    ensures
        stages_run(stages, inputs, n, x + y).0 == stages_run(stages, inputs, n, x).0
            + stages_run(stages, inputs, n, y).0,
    decreases n,
{
    if n > 0 {
        lemma_run_concat(stages, inputs, n - 1, x, y);
        let rx = stages_run(stages, inputs, n - 1, x);
        let ry = stages_run(stages, inputs, n - 1, y);
        match stages[n - 1] {
            StageView::Filter { predicates, equivalences } => {
                lemma_filter_concat(predicates, equivalences, rx.0, ry.0);
            }
            StageView::Lookup { peer, arrangement_key, probe_key, time_flavor, .. } => {
                lemma_lookup_concat(
                    rx.0,
                    ry.0,
                    inputs[peer as int],
                    arrangement_key,
                    probe_key,
                    time_flavor,
                );
            }
            StageView::Permute { permutation } => {
                lemma_permute_concat(permutation, rx.0, ry.0);
            }
        }
    }
}

/// A delta stream respects retraction: running the negated working stream
/// negates every output and every error.
pub proof fn lemma_run_negs(
    stages: Seq<StageView>,
    inputs: Seq<Seq<UpdateV>>,
    n: int,
    x: Seq<UpdateV>,
)
    requires
        0 <= n,
    ensures
        stages_run(stages, inputs, n, negs(x)).0 == negs(stages_run(stages, inputs, n, x).0),
        stages_run(stages, inputs, n, negs(x)).1 == neg_errs(stages_run(stages, inputs, n, x).1),
    decreases n,
{
    if n == 0 {
        assert(neg_errs(stages_run(stages, inputs, 0, x).1) =~= Seq::<ErrorUpdateV>::empty());
    } else {
        lemma_run_negs(stages, inputs, n - 1, x);
        let rx = stages_run(stages, inputs, n - 1, x);
        match stages[n - 1] {
            StageView::Filter { predicates, equivalences } => {
                lemma_filter_negs(predicates, equivalences, rx.0);
                let fx = filter_eval_spec(predicates, equivalences, rx.0);
                assert(neg_errs(rx.1) + neg_errs(fx.1) =~= neg_errs(rx.1 + fx.1));
            }
            StageView::Lookup { peer, arrangement_key, probe_key, time_flavor, .. } => {
                lemma_lookup_negs(
                    rx.0,
                    inputs[peer as int],
                    arrangement_key,
                    probe_key,
                    time_flavor,
                );
                let lx = lookup_spec(
                    rx.0,
                    inputs[peer as int],
                    arrangement_key,
                    probe_key,
                    time_flavor,
                );
                assert(neg_errs(rx.1) + neg_errs(lx.1) =~= neg_errs(rx.1 + lx.1));
            }
            StageView::Permute { permutation } => {
                lemma_permute_negs(permutation, rx.0);
            }
        }
    }
}

/// Adding then retracting an update on a delta stream's working input
/// produces zero net change: for every output row and time, and every
/// error and time, the net multiplicity equals the one without the pair.
pub proof fn lemma_add_then_retract_nets_zero(
    stages: Seq<StageView>,
    inputs: Seq<Seq<UpdateV>>,
    n: int,
    init: Seq<UpdateV>,
    u: UpdateV,
    row: Seq<Datum>,
    time: u64,
)
    requires
        0 <= n,
    ensures
        sum_for(stages_run(stages, inputs, n, init + seq![u, neg_update(u)]).0, row, time)
            == sum_for(stages_run(stages, inputs, n, init).0, row, time),
{
    let pair = seq![u, neg_update(u)];
    let single = seq![u];
    assert(pair =~= single + negs(single));
    lemma_run_concat(stages, inputs, n, init, pair);
    lemma_run_concat(stages, inputs, n, single, negs(single));
    lemma_run_negs(stages, inputs, n, single);
    let base = stages_run(stages, inputs, n, init).0;
    let one = stages_run(stages, inputs, n, single).0;
    assert(stages_run(stages, inputs, n, pair).0 =~= one + negs(one));
    assert(stages_run(stages, inputs, n, init + pair).0 =~= base + (one + negs(one)));
    lemma_sum_for_concat(base, one + negs(one), row, time);
    lemma_sum_for_concat(one, negs(one), row, time);
    lemma_sum_for_negs(one, row, time);
}

/// The concatenation of every delta stream's contribution: the rendered
/// join's changelog and error stream over the given batches.
pub open spec fn join_eval_spec(
    paths: Seq<DeltaPathPlan>,
    inputs: Seq<Seq<UpdateV>>,
    n: int,
) -> (Seq<UpdateV>, Seq<ErrorUpdateV>)
    decreases n,
{
    if n <= 0 {
        (Seq::empty(), Seq::empty())
    } else {
        let rest = join_eval_spec(paths, inputs, n - 1);
        let p = paths[n - 1];
        let pe = path_eval_spec(
            stage_views(p.stages@),
            inputs,
            p.root,
            stage_views(p.stages@).len() as int,
        );
        (rest.0 + pe.0, rest.1 + pe.1)
    }
}

/// Evaluates a rendered delta join over finite input batches.
pub fn eval_delta_join(
    plan: &DeltaJoinPlan,
    inputs: &Vec<Vec<Update>>,
    arities: &Vec<usize>,
) -> (r: (Vec<Update>, Vec<ErrorUpdate>))
    requires
        inputs_ok(inputs_view(inputs@), arities@),
        forall|t: int|
            0 <= t < plan.paths@.len() ==> {
                &&& (((#[trigger] plan.paths@[t]).root) as int) < arities@.len()
                &&& stages_evalable(
                    stage_views(plan.paths@[t].stages@),
                    inputs_view(inputs@),
                    arities@,
                    arities@[plan.paths@[t].root as int] as int,
                )
            },
    ensures
        updates_view(r.0@) == join_eval_spec(
            plan.paths@,
            inputs_view(inputs@),
            plan.paths@.len() as int,
        ).0,
        errors_view(r.1@) == join_eval_spec(
            plan.paths@,
            inputs_view(inputs@),
            plan.paths@.len() as int,
        ).1,
{
    let ghost iv = inputs_view(inputs@);
    let mut oks: Vec<Update> = Vec::new();
    let mut errs: Vec<ErrorUpdate> = Vec::new();
    proof {
        assert(updates_view(oks@) =~= Seq::<UpdateV>::empty());
        assert(errors_view(errs@) =~= Seq::<ErrorUpdateV>::empty());
    }
    let mut t: usize = 0;
    while t < plan.paths.len()
        invariant
            t <= plan.paths@.len(),
            iv == inputs_view(inputs@),
            inputs_ok(iv, arities@),
            forall|j: int|
                0 <= j < plan.paths@.len() ==> {
                    &&& (((#[trigger] plan.paths@[j]).root) as int) < arities@.len()
                    &&& stages_evalable(
                        stage_views(plan.paths@[j].stages@),
                        iv,
                        arities@,
                        arities@[plan.paths@[j].root as int] as int,
                    )
                },
            updates_view(oks@) == join_eval_spec(plan.paths@, iv, t as int).0,
            errors_view(errs@) == join_eval_spec(plan.paths@, iv, t as int).1,
        decreases plan.paths@.len() - t,
    {
        let ghost ov = updates_view(oks@);
        let ghost ev = errors_view(errs@);
        let (mut o, mut e) = eval_delta_path(&plan.paths[t], inputs, arities);
        let ghost pov = updates_view(o@);
        let ghost pev = errors_view(e@);
        oks.append(&mut o);
        errs.append(&mut e);
        proof {
            assert(updates_view(oks@) =~= ov + pov);
            assert(errors_view(errs@) =~= ev + pev);
        }
        t += 1;
    }
    (oks, errs)
}

} // verus!
