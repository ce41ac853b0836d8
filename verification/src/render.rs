//! The delta-join renderer: translation of a join plan into one delta stream
//! per input, each a sequence of filter, lookup and permutation stages.

use vstd::prelude::*;

use crate::expr::{
    contains_expr, expr_wf, exprs_eq, first_pos, position_of, rewrite_columns, rewrite_spec,
    shift_spec, supported, ScalarExpr,
};
use crate::filter::{
    build_filter, canon_classes_spec, canonicalize_equivalences, classes_remaining, clone_classes,
    clone_exprs, ready_equivs_spec, ready_preds_spec, sup_filter, FilterStage,
};
use crate::mapper::{
    classes_view, find_bound_expr, find_bound_spec, global_cols_spec, lemma_find_bound_supported,
    lemma_input_of_col, lemma_offset_mono, input_of_col, offset_of, JoinInputMapper,
};
verus! {

/// The refinement under which a peer arrangement is imported into the inner
/// timestamp scope: `alt(t)` sorts before `neu(t)`.
#[derive(Clone, Copy, Debug, PartialEq, Eq, Structural)]
pub enum TimeFlavor {
    Alt,
    Neu,
}

/// Whether an arrangement is produced inside the same dataflow or imported
/// from an external catalog.
#[derive(Clone, Copy, Debug, PartialEq, Eq, Structural)]
pub enum ArrangementFlavor {
    Local,
    Trace,
}

/// One entry of a delta stream's traversal order: which peer to join against
/// next, by which key expressions (in the peer's local column space).
#[derive(Debug)]
pub struct DeltaPathStep {
    pub peer: usize,
    pub key: Vec<ScalarExpr>,
}

/// The catalog entry for an available arrangement of one input.
#[derive(Debug)]
pub struct ArrangementEntry {
    pub input: usize,
    pub key: Vec<ScalarExpr>,
    pub flavor: ArrangementFlavor,
}

/// One stage of a rendered delta stream.
#[derive(Debug)]
pub enum DeltaStage {
    /// Drop rows failing the ready predicates and equivalence tuples;
    /// evaluation errors go to the error stream.
    Filter(FilterStage),
    /// Probe the peer's arrangement (keyed by `arrangement_key` in the
    /// peer's local columns) with `probe_key` evaluated on the working row,
    /// under the given timestamp refinement, and append the peer's columns.
    Lookup {
        peer: usize,
        arrangement_key: Vec<ScalarExpr>,
        probe_key: Vec<ScalarExpr>,
        time_flavor: TimeFlavor,
        arrangement_flavor: ArrangementFlavor,
    },
    /// Re-pack each row under the permutation: output column `c` is working
    /// column `permutation[c]`.
    Permute { permutation: Vec<usize> },
}

/// The mathematical shape of a stage.
pub enum StageView {
    Filter { predicates: Seq<ScalarExpr>, equivalences: Seq<Seq<ScalarExpr>> },
    Lookup {
        peer: usize,
        arrangement_key: Seq<ScalarExpr>,
        probe_key: Seq<ScalarExpr>,
        time_flavor: TimeFlavor,
        arrangement_flavor: ArrangementFlavor,
    },
    Permute { permutation: Seq<usize> },
}

impl View for DeltaStage {
    type V = StageView;

    open spec fn view(&self) -> StageView {
        match self {
            DeltaStage::Filter(f) => StageView::Filter {
                predicates: f.predicates@,
                equivalences: classes_view(f.equivalences@),
            },
            DeltaStage::Lookup {
                peer,
                arrangement_key,
                probe_key,
                time_flavor,
                arrangement_flavor,
            } => StageView::Lookup {
                peer: *peer,
                arrangement_key: arrangement_key@,
                probe_key: probe_key@,
                time_flavor: *time_flavor,
                arrangement_flavor: *arrangement_flavor,
            },
            DeltaStage::Permute { permutation } => StageView::Permute {
                permutation: permutation@,
            },
        }
    }
}

/// The views of a stage list.
pub open spec fn stage_views(v: Seq<DeltaStage>) -> Seq<StageView> {
    v.map_values(|s: DeltaStage| s@)
}

/// One rendered delta stream: the stages applied, in order, to the update
/// stream of the root input.
#[derive(Debug)]
pub struct DeltaPathPlan {
    pub root: usize,
    pub stages: Vec<DeltaStage>,
}

/// A fatal planning error: the plan violated an invariant the renderer
/// depends on, so rendering aborts with a diagnostic.
#[derive(Clone, Copy, Debug, PartialEq, Eq, Structural)]
pub enum PlanError {
    /// The join node does not carry the delta-query implementation.
    NotDeltaQuery,
    /// A key expression of `orders[root][step]` has no bound equivalent.
    UnboundKey { root: usize, step: usize },
    /// The arrangement of `orders[root][step]` is absent from the catalog.
    MissingArrangement { root: usize, step: usize },
}

/// The timestamp-flavor rule, the central correctness device: a peer with a
/// larger index than the root is consulted at `alt(t)`, one with a smaller
/// index at `neu(t)`, so that of two concurrent updates exactly one delta
/// stream observes the pair.
pub open spec fn flavor_rule(root: int, peer: int) -> TimeFlavor {
    if peer > root {
        TimeFlavor::Alt
    } else {
        TimeFlavor::Neu
    }
}

/// The flavor the catalog gives for `(input, key)`: the first matching entry.
pub open spec fn catalog_flavor(
    entries: Seq<ArrangementEntry>,
    input: usize,
    key: Seq<ScalarExpr>,
) -> Option<ArrangementFlavor>
    decreases entries.len(),
{
    if entries.len() == 0 {
        None
    } else if entries[0].input == input && entries[0].key@ == key {
        Some(entries[0].flavor)
    } else {
        catalog_flavor(entries.drop_first(), input, key)
    }
}

/// Each rebased key expression translated to a probe expression over the
/// working row: a bound equivalent, rewritten to working-row positions.
/// `None` when some key component has no bound equivalent.
pub open spec fn translate_keys_spec(
    keys: Seq<ScalarExpr>,
    cols: Seq<usize>,
    classes: Seq<Seq<ScalarExpr>>,
) -> Option<Seq<ScalarExpr>>
    decreases keys.len(),
{
    if keys.len() == 0 {
        Some(Seq::empty())
    } else {
        match translate_keys_spec(keys.drop_last(), cols, classes) {
            None => None,
            Some(init) => match find_bound_spec(keys.last(), cols, classes) {
                None => None,
                Some(b) => Some(init.push(rewrite_spec(b, cols))),
            },
        }
    }
}

pub proof fn lemma_translate_none(
    keys: Seq<ScalarExpr>,
    cols: Seq<usize>,
    classes: Seq<Seq<ScalarExpr>>,
    m: int,
)
    requires
        0 <= m <= keys.len(),
        translate_keys_spec(keys.take(m), cols, classes) is None,
    ensures
        translate_keys_spec(keys, cols, classes) is None,
    decreases keys.len(),
{
    if keys.len() == m {
        assert(keys.take(m) =~= keys);
    } else {
        assert(keys.drop_last().take(m) =~= keys.take(m));
        lemma_translate_none(keys.drop_last(), cols, classes, m);
    }
}

/// A key expression structurally equal to a rebased key is dropped from
/// every equivalence class — its equality is embodied by the lookup itself —
/// and classes left with at most one member are discarded.
pub open spec fn remove_keys_class(class: Seq<ScalarExpr>, keys: Seq<ScalarExpr>) -> Seq<
    ScalarExpr,
>
    decreases class.len(),
{
    if class.len() == 0 {
        Seq::empty()
    } else {
        let init = remove_keys_class(class.drop_last(), keys);
        if keys.contains(class.last()) {
            init
        } else {
            init.push(class.last())
        }
    }
}

pub open spec fn remove_keys_classes(classes: Seq<Seq<ScalarExpr>>, keys: Seq<ScalarExpr>) -> Seq<
    Seq<ScalarExpr>,
>
    decreases classes.len(),
{
    if classes.len() == 0 {
        Seq::empty()
    } else {
        let init = remove_keys_classes(classes.drop_last(), keys);
        let r = remove_keys_class(classes.last(), keys);
        if r.len() > 1 {
            init.push(r)
        } else {
            init
        }
    }
}

/// The renderer's per-delta-stream mutable state: the column provenance of
/// the working row, and the residual equivalences and predicates.
pub struct PathState {
    pub cols: Seq<usize>,
    pub equivalences: Seq<Seq<ScalarExpr>>,
    pub predicates: Seq<ScalarExpr>,
}

/// The filter stage (if any constraints are ready) staged over `cols`.
pub open spec fn filter_views(
    preds: Seq<ScalarExpr>,
    classes: Seq<Seq<ScalarExpr>>,
    cols: Seq<usize>,
) -> Seq<StageView> {
    let rp = ready_preds_spec(preds, cols);
    let re = ready_equivs_spec(classes, cols);
    if rp.len() == 0 && re.len() == 0 {
        Seq::empty()
    } else {
        seq![StageView::Filter { predicates: rp, equivalences: re }]
    }
}

/// The state after step 0: provenance from the root's global columns, the
/// canonicalized private copy of the equivalences, and the initial filter
/// applied.
pub open spec fn init_state(
    arities: Seq<usize>,
    root: usize,
    preds0: Seq<ScalarExpr>,
    equivs0: Seq<Seq<ScalarExpr>>,
) -> PathState {
    let cols0 = global_cols_spec(arities, root as int);
    let canon = canon_classes_spec(equivs0);
    PathState {
        cols: cols0,
        equivalences: classes_remaining(canon, cols0),
        predicates: sup_filter(preds0, cols0, false),
    }
}

pub open spec fn init_stages(
    arities: Seq<usize>,
    root: usize,
    preds0: Seq<ScalarExpr>,
    equivs0: Seq<Seq<ScalarExpr>>,
) -> Seq<StageView> {
    filter_views(preds0, canon_classes_spec(equivs0), global_cols_spec(arities, root as int))
}

/// One traversal step: rebase the key, translate it over the bound columns,
/// consult the catalog, drop the now-redundant key equalities, extend the
/// provenance with the peer's columns, and filter again.
pub open spec fn step_result(
    arities: Seq<usize>,
    root: usize,
    entries: Seq<ArrangementEntry>,
    st: PathState,
    peer: usize,
    key: Seq<ScalarExpr>,
    step_index: usize,
) -> Result<(PathState, Seq<StageView>), PlanError> {
    let rebased = key.map_values(|e: ScalarExpr| shift_spec(e, offset_of(arities, peer as int)));
    match translate_keys_spec(rebased, st.cols, st.equivalences) {
        None => Err(PlanError::UnboundKey { root, step: step_index }),
        Some(probe) => match catalog_flavor(entries, peer, key) {
            None => Err(PlanError::MissingArrangement { root, step: step_index }),
            Some(af) => {
                let equivs1 = remove_keys_classes(st.equivalences, rebased);
                let cols1 = st.cols + global_cols_spec(arities, peer as int);
                let lookup = StageView::Lookup {
                    peer,
                    arrangement_key: key,
                    probe_key: probe,
                    time_flavor: flavor_rule(root as int, peer as int),
                    arrangement_flavor: af,
                };
                let fs = filter_views(st.predicates, equivs1, cols1);
                let st2 = PathState {
                    cols: cols1,
                    equivalences: classes_remaining(equivs1, cols1),
                    predicates: sup_filter(st.predicates, cols1, false),
                };
                Ok((st2, seq![lookup] + fs))
            }
        },
    }
}

/// The state and stages after the first `n` traversal steps.
pub open spec fn path_partial_spec(
    arities: Seq<usize>,
    root: usize,
    entries: Seq<ArrangementEntry>,
    order: Seq<DeltaPathStep>,
    n: int,
    preds0: Seq<ScalarExpr>,
    equivs0: Seq<Seq<ScalarExpr>>,
) -> Result<(PathState, Seq<StageView>), PlanError>
    decreases n,
{
    if n <= 0 {
        Ok(
            (
                init_state(arities, root, preds0, equivs0),
                init_stages(arities, root, preds0, equivs0),
            ),
        )
    } else {
        match path_partial_spec(arities, root, entries, order, n - 1, preds0, equivs0) {
            Err(e) => Err(e),
            Ok((st, sv)) => match step_result(
                arities,
                root,
                entries,
                st,
                order[n - 1].peer,
                order[n - 1].key@,
                (n - 1) as usize,
            ) {
                Err(e) => Err(e),
                Ok((st2, sv2)) => Ok((st2, sv + sv2)),
            },
        }
    }
}

pub proof fn lemma_path_partial_err(
    arities: Seq<usize>,
    root: usize,
    entries: Seq<ArrangementEntry>,
    order: Seq<DeltaPathStep>,
    m: int,
    n: int,
    preds0: Seq<ScalarExpr>,
    equivs0: Seq<Seq<ScalarExpr>>,
)
    requires
        0 <= m <= n,
        path_partial_spec(arities, root, entries, order, m, preds0, equivs0) is Err,
    ensures
        path_partial_spec(arities, root, entries, order, n, preds0, equivs0)
            == path_partial_spec(arities, root, entries, order, m, preds0, equivs0),
    decreases n - m,
{
    if m < n {
        lemma_path_partial_err(arities, root, entries, order, m, n - 1, preds0, equivs0);
    }
}

/// The permutation restoring canonical column order: output column `c` is
/// taken from the working-row position holding global column `c`.
pub open spec fn final_permutation(arities: Seq<usize>, cols: Seq<usize>) -> Seq<usize> {
    Seq::new(
        offset_of(arities, arities.len() as int) as nat,
        |c: int| first_pos(cols, c as usize) as usize,
    )
}

/// The complete rendered delta stream for `root`: the traversal stages, then
/// the final permutation.
pub open spec fn path_plan_spec(
    arities: Seq<usize>,
    root: usize,
    entries: Seq<ArrangementEntry>,
    order: Seq<DeltaPathStep>,
    preds0: Seq<ScalarExpr>,
    equivs0: Seq<Seq<ScalarExpr>>,
) -> Result<Seq<StageView>, PlanError> {
    match path_partial_spec(arities, root, entries, order, order.len() as int, preds0, equivs0) {
        Err(e) => Err(e),
        Ok((st, sv)) => Ok(
            sv.push(StageView::Permute { permutation: final_permutation(arities, st.cols) }),
        ),
    }
}

/// Whether some step of `order` visits input `i`.
pub open spec fn covered_by(order: Seq<DeltaPathStep>, i: int) -> bool {
    exists|j: int| 0 <= j < order.len() && (#[trigger] order[j]).peer == i
}

/// Well-formedness of one traversal order: peers are distinct existing
/// inputs other than the root, together with the root they cover every
/// input, and key expressions fit the peer's arity.
pub open spec fn order_wf(order: Seq<DeltaPathStep>, root: usize, arities: Seq<usize>) -> bool {
    &&& forall|j: int| 0 <= j < order.len() ==> (#[trigger] order[j]).peer < arities.len()
    &&& forall|j: int| 0 <= j < order.len() ==> (#[trigger] order[j]).peer != root
    &&& forall|j: int, k: int|
        0 <= j < order.len() && 0 <= k < order.len() && j != k ==> (#[trigger] order[j]).peer != (
        #[trigger] order[k]).peer
    &&& forall|i: int| 0 <= i < arities.len() && i != root ==> #[trigger] covered_by(order, i)
    &&& forall|j: int, k: int|
        0 <= j < order.len() && 0 <= k < order[j].key@.len() ==> expr_wf(
            #[trigger] order[j].key@[k],
            arities[order[j].peer as int] as int,
        )
}

/// Membership survives concatenation.
pub proof fn lemma_contains_append<A>(a: Seq<A>, b: Seq<A>, x: A)
    requires
        a.contains(x) || b.contains(x),
    ensures
        (a + b).contains(x),
{
    if a.contains(x) {
        let i = choose|i: int| 0 <= i < a.len() && a[i] == x;
        assert((a + b)[i] == x);
    } else {
        let i = choose|i: int| 0 <= i < b.len() && b[i] == x;
        assert((a + b)[a.len() + i] == x);
    }
}

/// `cols` holds every global column of input `i`.
pub open spec fn holds_input_cols(cols: Seq<usize>, arities: Seq<usize>, i: int) -> bool {
    forall|k: int|
        0 <= k < arities[i] ==> cols.contains(#[trigger] global_cols_spec(arities, i)[k])
}

/// Looks `(input, key)` up in the arrangement catalog.
pub fn catalog_lookup(
    entries: &Vec<ArrangementEntry>,
    input: usize,
    key: &Vec<ScalarExpr>,
) -> (r: Option<ArrangementFlavor>)
    ensures
        r == catalog_flavor(entries@, input, key@),
{
    proof {
        assert(entries@.skip(0) =~= entries@);
    }
    let mut i: usize = 0;
    while i < entries.len()
        invariant
            i <= entries@.len(),
            catalog_flavor(entries@, input, key@) == catalog_flavor(
                entries@.skip(i as int),
                input,
                key@,
            ),
        decreases entries@.len() - i,
    {
        proof {
            assert(entries@.skip(i as int)[0] == entries@[i as int]);
            assert(entries@.skip(i as int).drop_first() =~= entries@.skip(i + 1));
        }
        let e = &entries[i];
        if e.input == input && exprs_eq(&e.key, key) {
            return Some(e.flavor);
        }
        i += 1;
    }
    proof {
        assert(entries@.skip(entries@.len() as int).len() == 0);
    }
    None
}

/// Rebases each key expression from the peer's local columns to global
/// columns.
fn rebase_key(mapper: &JoinInputMapper, key: &Vec<ScalarExpr>, peer: usize) -> (r: Vec<
    ScalarExpr,
>)
    requires
        mapper.wf(),
        peer < mapper.arities@.len(),
        forall|k: int| 0 <= k < key@.len() ==> expr_wf(
            #[trigger] key@[k],
            mapper.arities@[peer as int] as int,
        ),
    ensures
        r@ == key@.map_values(
            |e: ScalarExpr| shift_spec(e, offset_of(mapper.arities@, peer as int)),
        ),
{
    let mut out: Vec<ScalarExpr> = Vec::new();
    let mut k: usize = 0;
    while k < key.len()
        invariant
            k <= key@.len(),
            mapper.wf(),
            peer < mapper.arities@.len(),
            forall|j: int| 0 <= j < key@.len() ==> expr_wf(
                #[trigger] key@[j],
                mapper.arities@[peer as int] as int,
            ),
            out@.len() == k,
            forall|j: int| 0 <= j < k ==> out@[j] == shift_spec(
                #[trigger] key@[j],
                offset_of(mapper.arities@, peer as int),
            ),
        decreases key@.len() - k,
    {
        out.push(mapper.map_expr_to_global(&key[k], peer));
        k += 1;
    }
    proof {
        assert(out@ =~= key@.map_values(
            |e: ScalarExpr| shift_spec(e, offset_of(mapper.arities@, peer as int)),
        ));
    }
    out
}

/// Translates each rebased key expression to a probe expression over the
/// working row, or reports the first component with no bound equivalent.
fn translate_keys(
    rebased: &Vec<ScalarExpr>,
    cols: &Vec<usize>,
    equivalences: &Vec<Vec<ScalarExpr>>,
) -> (r: Option<Vec<ScalarExpr>>)
    ensures
        (match r {
            Some(probe) => translate_keys_spec(rebased@, cols@, classes_view(equivalences@))
                == Some(probe@),
            None => translate_keys_spec(rebased@, cols@, classes_view(equivalences@)) is None,
        }),
{
    let ghost cv = classes_view(equivalences@);
    let mut out: Vec<ScalarExpr> = Vec::new();
    proof {
        assert(rebased@.take(0) =~= Seq::<ScalarExpr>::empty());
    }
    let mut k: usize = 0;
    while k < rebased.len()
        invariant
            k <= rebased@.len(),
            cv == classes_view(equivalences@),
            translate_keys_spec(rebased@.take(k as int), cols@, cv) == Some(out@),
        decreases rebased@.len() - k,
    {
        proof {
            assert(rebased@.take(k + 1).drop_last() =~= rebased@.take(k as int));
            assert(rebased@.take(k + 1).last() == rebased@[k as int]);
        }
        match find_bound_expr(&rebased[k], cols, equivalences) {
            None => {
                proof {
                    assert(translate_keys_spec(rebased@.take(k + 1), cols@, cv) is None);
                    lemma_translate_none(rebased@, cols@, cv, k + 1);
                }
                return None;
            }
            Some(b) => {
                proof {
                    lemma_find_bound_supported(rebased@[k as int], cols@, cv);
                }
                let p = rewrite_columns(&b, cols);
                out.push(p);
            }
        }
        k += 1;
    }
    proof {
        assert(rebased@.take(rebased@.len() as int) =~= rebased@);
    }
    Some(out)
}

/// Drops every class member structurally equal to a rebased key expression,
/// then drops the classes left with at most one member.
fn remove_keys(equivalences: &mut Vec<Vec<ScalarExpr>>, keys: &Vec<ScalarExpr>)
    ensures
        classes_view(final(equivalences)@) == remove_keys_classes(
            classes_view(old(equivalences)@),
            keys@,
        ),
{
    let ghost cv = classes_view(old(equivalences)@);
    let mut out: Vec<Vec<ScalarExpr>> = Vec::new();
    proof {
        assert(cv.take(0) =~= Seq::<Seq<ScalarExpr>>::empty());
    }
    let mut i: usize = 0;
    while i < equivalences.len()
        invariant
            i <= equivalences@.len(),
            equivalences@ == old(equivalences)@,
            cv == classes_view(equivalences@),
            cv.len() == equivalences@.len(),
            forall|j: int| 0 <= j < equivalences@.len() ==> cv[j] == equivalences@[j]@,
            classes_view(out@) == remove_keys_classes(cv.take(i as int), keys@),
        decreases equivalences@.len() - i,
    {
        let class = &equivalences[i];
        let mut kept: Vec<ScalarExpr> = Vec::new();
        proof {
            assert(class@.take(0) =~= Seq::<ScalarExpr>::empty());
        }
        let mut j: usize = 0;
        while j < class.len()
            invariant
                j <= class@.len(),
                kept@ == remove_keys_class(class@.take(j as int), keys@),
            decreases class@.len() - j,
        {
            proof {
                assert(class@.take(j + 1).drop_last() =~= class@.take(j as int));
                assert(class@.take(j + 1).last() == class@[j as int]);
            }
            if !contains_expr(keys, &class[j]) {
                kept.push(class[j].clone());
            }
            j += 1;
        }
        proof {
            assert(class@.take(class@.len() as int) =~= class@);
            assert(cv.take(i + 1).drop_last() =~= cv.take(i as int));
            assert(cv.take(i + 1).last() == cv[i as int]);
        }
        if kept.len() > 1 {
            let ghost before = classes_view(out@);
            out.push(kept);
            proof {
                assert(classes_view(out@) =~= before.push(remove_keys_class(cv[i as int], keys@)));
            }
        }
        i += 1;
    }
    proof {
        assert(cv.take(cv.len() as int) =~= cv);
    }
    *equivalences = out;
}

/// How a join node is implemented; the renderer accepts only the
/// delta-query variant, carrying one traversal order per input.
#[derive(Debug)]
pub enum JoinImplementation {
    DeltaQuery(Vec<Vec<DeltaPathStep>>),
    Differential,
}

/// A declarative join node: the inputs (by arity), the equivalence classes
/// of expressions asserted equal (in global columns), and the chosen
/// implementation.
#[derive(Debug)]
pub struct JoinExpr {
    pub input_arities: Vec<usize>,
    pub equivalences: Vec<Vec<ScalarExpr>>,
    pub implementation: JoinImplementation,
}

/// One contribution to the combined error stream.
#[derive(Debug)]
pub enum ErrorSource {
    /// The intrinsic error collection of an input relation.
    Input(usize),
    /// The intrinsic error collection of a peer arrangement.
    Arrangement { input: usize, key: Vec<ScalarExpr>, flavor: ArrangementFlavor },
}

/// The mathematical shape of an error source.
pub enum ErrorSourceView {
    Input(usize),
    Arrangement { input: usize, key: Seq<ScalarExpr>, flavor: ArrangementFlavor },
}

impl View for ErrorSource {
    type V = ErrorSourceView;

    open spec fn view(&self) -> ErrorSourceView {
        match self {
            ErrorSource::Input(i) => ErrorSourceView::Input(*i),
            ErrorSource::Arrangement { input, key, flavor } => ErrorSourceView::Arrangement {
                input: *input,
                key: key@,
                flavor: *flavor,
            },
        }
    }
}

pub open spec fn sources_view(v: Seq<ErrorSource>) -> Seq<ErrorSourceView> {
    v.map_values(|s: ErrorSource| s@)
}

/// The rendered delta join: one delta stream per input, whose concatenation
/// is the join's changelog, and the deduplicated list of upstream error
/// streams to union into the combined error output.
#[derive(Debug)]
pub struct DeltaJoinPlan {
    pub paths: Vec<DeltaPathPlan>,
    pub error_sources: Vec<ErrorSource>,
}

pub open spec fn paths_views(v: Seq<DeltaPathPlan>) -> Seq<Seq<StageView>> {
    v.map_values(|p: DeltaPathPlan| stage_views(p.stages@))
}

/// The delta streams of roots `0 .. n`, or the first planning error.
pub open spec fn join_paths_spec(
    arities: Seq<usize>,
    entries: Seq<ArrangementEntry>,
    orders: Seq<Vec<DeltaPathStep>>,
    n: int,
    preds: Seq<ScalarExpr>,
    equivs: Seq<Seq<ScalarExpr>>,
) -> Result<Seq<Seq<StageView>>, PlanError>
    decreases n,
{
    if n <= 0 {
        Ok(Seq::empty())
    } else {
        match join_paths_spec(arities, entries, orders, n - 1, preds, equivs) {
            Err(e) => Err(e),
            Ok(init) => match path_plan_spec(
                arities,
                (n - 1) as usize,
                entries,
                orders[n - 1]@,
                preds,
                equivs,
            ) {
                Err(e) => Err(e),
                Ok(sv) => Ok(init.push(sv)),
            },
        }
    }
}

pub proof fn lemma_join_paths_err(
    arities: Seq<usize>,
    entries: Seq<ArrangementEntry>,
    orders: Seq<Vec<DeltaPathStep>>,
    m: int,
    n: int,
    preds: Seq<ScalarExpr>,
    equivs: Seq<Seq<ScalarExpr>>,
)
    requires
        0 <= m <= n,
        join_paths_spec(arities, entries, orders, m, preds, equivs) is Err,
    ensures
        join_paths_spec(arities, entries, orders, n, preds, equivs) == join_paths_spec(
            arities,
            entries,
            orders,
            m,
            preds,
            equivs,
        ),
    decreases n - m,
{
    if m < n {
        lemma_join_paths_err(arities, entries, orders, m, n - 1, preds, equivs);
    }
}

/// The arrangement error sources of one delta stream, one per lookup stage,
/// in stage order.
pub open spec fn arr_sources_of(sv: Seq<StageView>) -> Seq<ErrorSourceView>
    decreases sv.len(),
{
    if sv.len() == 0 {
        Seq::empty()
    } else {
        let init = arr_sources_of(sv.drop_last());
        match sv.last() {
            StageView::Lookup { peer, arrangement_key, arrangement_flavor, .. } => init.push(
                ErrorSourceView::Arrangement {
                    input: peer,
                    key: arrangement_key,
                    flavor: arrangement_flavor,
                },
            ),
            _ => init,
        }
    }
}

/// Every upstream error source touched while traversing the delta streams,
/// in traversal order and before deduplication: each root input's own error
/// collection, then the arrangements its lookups probe.
pub open spec fn raw_sources(paths: Seq<Seq<StageView>>) -> Seq<ErrorSourceView>
    decreases paths.len(),
{
    if paths.len() == 0 {
        Seq::empty()
    } else {
        raw_sources(paths.drop_last()) + seq![
            ErrorSourceView::Input((paths.len() - 1) as usize),
        ] + arr_sources_of(paths.last())
    }
}

/// First occurrences only: a source already seen contributes nothing more.
pub open spec fn dedup_sources(s: Seq<ErrorSourceView>) -> Seq<ErrorSourceView>
    decreases s.len(),
{
    if s.len() == 0 {
        Seq::empty()
    } else {
        let init = dedup_sources(s.drop_last());
        if s.drop_last().contains(s.last()) {
            init
        } else {
            init.push(s.last())
        }
    }
}

/// Deduplication keeps membership and leaves no duplicates: a source seen
/// `k >= 1` times contributes exactly once.
pub proof fn lemma_dedup_sources(s: Seq<ErrorSourceView>)
    ensures
        forall|x: ErrorSourceView| #[trigger]
            dedup_sources(s).contains(x) <==> s.contains(x),
        dedup_sources(s).no_duplicates(),
    decreases s.len(),
{
    if s.len() == 0 {
    } else {
        lemma_dedup_sources(s.drop_last());
        let init = dedup_sources(s.drop_last());
        let last = s.last();
        assert forall|x: ErrorSourceView| s.contains(x) implies #[trigger] dedup_sources(
            s,
        ).contains(x) by {
            let j = choose|j: int| 0 <= j < s.len() && s[j] == x;
            if j < s.len() - 1 {
                assert(s.drop_last()[j] == x);
                assert(s.drop_last().contains(x));
                assert(init.contains(x));
                if !s.drop_last().contains(last) {
                    let k = choose|k: int| 0 <= k < init.len() && init[k] == x;
                    assert(init.push(last)[k] == x);
                }
            } else {
                assert(x == last);
                if s.drop_last().contains(last) {
                    assert(init.contains(x));
                } else {
                    assert(init.push(last)[init.len() as int] == x);
                }
            }
        }
        assert forall|x: ErrorSourceView| #[trigger]
            dedup_sources(s).contains(x) implies s.contains(x) by {
            if s.drop_last().contains(last) {
                assert(s.drop_last().contains(x));
                let j = choose|j: int| 0 <= j < s.drop_last().len() && s.drop_last()[j] == x;
                assert(s[j] == x);
            } else {
                let k = choose|k: int|
                    0 <= k < init.push(last).len() && init.push(last)[k] == x;
                if k < init.len() {
                    assert(init.contains(x));
                    assert(s.drop_last().contains(x));
                    let j = choose|j: int| 0 <= j < s.drop_last().len() && s.drop_last()[j] == x;
                    assert(s[j] == x);
                } else {
                    assert(x == last);
                    assert(s[s.len() - 1] == x);
                }
            }
        }
        if !s.drop_last().contains(last) {
            assert(!init.contains(last));
            assert forall|i: int, j: int|
                0 <= i < init.push(last).len() && 0 <= j < init.push(last).len() && i != j
                implies init.push(last)[i] != init.push(last)[j] by {
                if i < init.len() && j < init.len() {
                } else if i < init.len() {
                    assert(init.contains(init[i]));
                } else if j < init.len() {
                    assert(init.contains(init[j]));
                }
            }
        }
    }
}

/// Structural equality of error sources.
fn error_source_eq(a: &ErrorSource, b: &ErrorSource) -> (r: bool)
    ensures
        r == (a@ == b@),
{
    match (a, b) {
        (ErrorSource::Input(i), ErrorSource::Input(j)) => i == j,
        (
            ErrorSource::Arrangement { input: i1, key: k1, flavor: f1 },
            ErrorSource::Arrangement { input: i2, key: k2, flavor: f2 },
        ) => *i1 == *i2 && *f1 == *f2 && exprs_eq(k1, k2),
        _ => false,
    }
}

/// Whether a source with the same view is already recorded.
fn contains_source(v: &Vec<ErrorSource>, x: &ErrorSource) -> (r: bool)
    ensures
        r == sources_view(v@).contains(x@),
{
    let mut i: usize = 0;
    while i < v.len()
        invariant
            i <= v@.len(),
            forall|j: int| 0 <= j < i ==> #[trigger] v@[j]@ != x@,
        decreases v@.len() - i,
    {
        if error_source_eq(&v[i], x) {
            proof {
                assert(sources_view(v@)[i as int] == x@);
            }
            return true;
        }
        i += 1;
    }
    proof {
        if sources_view(v@).contains(x@) {
            let j = choose|j: int| 0 <= j < sources_view(v@).len() && sources_view(v@)[j] == x@;
            assert(v@[j]@ == x@);
            assert(false);
        }
    }
    false
}

/// Renders the delta stream rooted at input `root`: sequences the prescribed
/// lookups, interleaves pushed-down filters, tracks column provenance, and
/// finally restores canonical column order.
pub fn render_delta_path(
    mapper: &JoinInputMapper,
    root: usize,
    order: &Vec<DeltaPathStep>,
    arrangements: &Vec<ArrangementEntry>,
    predicates: &Vec<ScalarExpr>,
    equivalences: &Vec<Vec<ScalarExpr>>,
) -> (r: Result<DeltaPathPlan, PlanError>)
    requires
        mapper.wf(),
        root < mapper.arities@.len(),
        order_wf(order@, root, mapper.arities@),
    ensures
        (match r {
            Ok(path) => {
                &&& path.root == root
                &&& path_plan_spec(
                    mapper.arities@,
                    root,
                    arrangements@,
                    order@,
                    predicates@,
                    classes_view(equivalences@),
                ) == Ok::<Seq<StageView>, PlanError>(stage_views(path.stages@))
            },
            Err(e) => path_plan_spec(
                mapper.arities@,
                root,
                arrangements@,
                order@,
                predicates@,
                classes_view(equivalences@),
            ) == Err::<Seq<StageView>, PlanError>(e),
        }),
{
    let ghost arities = mapper.arities@;
    let ghost preds0 = predicates@;
    let ghost equivs0 = classes_view(equivalences@);
    let ghost entries = arrangements@;

    // Private mutable copies: each delta stream digests its own.
    let mut preds = clone_exprs(predicates);
    let mut equivs = clone_classes(equivalences);
    canonicalize_equivalences(&mut equivs);

    // Column provenance: which global column sits at each working-row position.
    let mut source_columns = mapper.global_columns(root);
    let ghost cols0 = global_cols_spec(arities, root as int);
    proof {
        assert forall|k: int| 0 <= k < arities[root as int] implies source_columns@.contains(
            #[trigger] global_cols_spec(arities, root as int)[k],
        ) by {
            assert(source_columns@[k] == global_cols_spec(arities, root as int)[k]);
        }
    }

    let mut stages: Vec<DeltaStage> = Vec::new();
    match build_filter(&source_columns, &mut preds, &mut equivs) {
        Some(stage) => {
            stages.push(DeltaStage::Filter(stage));
        }
        None => {}
    }
    proof {
        assert(stage_views(stages@) =~= init_stages(arities, root, preds0, equivs0));
    }

    let n = order.len();
    let mut i: usize = 0;
    while i < n
        invariant
            i <= n,
            n == order@.len(),
            mapper.wf(),
            arities == mapper.arities@,
            entries == arrangements@,
            preds0 == predicates@,
            equivs0 == classes_view(equivalences@),
            root < arities.len(),
            order_wf(order@, root, arities),
            path_partial_spec(arities, root, entries, order@, i as int, preds0, equivs0)
                == Ok::<(PathState, Seq<StageView>), PlanError>(
                (
                    PathState {
                        cols: source_columns@,
                        equivalences: classes_view(equivs@),
                        predicates: preds@,
                    },
                    stage_views(stages@),
                ),
            ),
            holds_input_cols(source_columns@, arities, root as int),
            forall|j: int| 0 <= j < i ==> holds_input_cols(
                source_columns@,
                arities,
                (#[trigger] order@[j]).peer as int,
            ),
        decreases n - i,
    {
        let ghost st_before = PathState {
            cols: source_columns@,
            equivalences: classes_view(equivs@),
            predicates: preds@,
        };
        let ghost sv_before = stage_views(stages@);
        let step = &order[i];
        let peer = step.peer;
        let rebased = rebase_key(mapper, &step.key, peer);
        let ghost rebased_spec = step.key@.map_values(
            |e: ScalarExpr| shift_spec(e, offset_of(arities, peer as int)),
        );
        let probe = match translate_keys(&rebased, &source_columns, &equivs) {
            None => {
                proof {
                    assert(step_result(
                        arities,
                        root,
                        entries,
                        st_before,
                        peer,
                        step.key@,
                        i as usize,
                    ) == Err::<(PathState, Seq<StageView>), PlanError>(PlanError::UnboundKey {
                        root,
                        step: i,
                    }));
                    assert(path_partial_spec(arities, root, entries, order@, i + 1, preds0, equivs0)
                        == Err::<(PathState, Seq<StageView>), PlanError>(PlanError::UnboundKey {
                        root,
                        step: i,
                    }));
                    lemma_path_partial_err(
                        arities,
                        root,
                        entries,
                        order@,
                        i + 1,
                        order@.len() as int,
                        preds0,
                        equivs0,
                    );
                    assert(path_plan_spec(arities, root, entries, order@, preds0, equivs0)
                        == Err::<Seq<StageView>, PlanError>(PlanError::UnboundKey {
                        root,
                        step: i,
                    }));
                }
                return Err(PlanError::UnboundKey { root, step: i });
            }
            Some(probe) => probe,
        };
        let flavor = match catalog_lookup(arrangements, peer, &step.key) {
            None => {
                proof {
                    assert(step_result(
                        arities,
                        root,
                        entries,
                        st_before,
                        peer,
                        step.key@,
                        i as usize,
                    ) == Err::<(PathState, Seq<StageView>), PlanError>(
                        PlanError::MissingArrangement { root, step: i },
                    ));
                    assert(path_partial_spec(arities, root, entries, order@, i + 1, preds0, equivs0)
                        == Err::<(PathState, Seq<StageView>), PlanError>(
                        PlanError::MissingArrangement { root, step: i },
                    ));
                    lemma_path_partial_err(
                        arities,
                        root,
                        entries,
                        order@,
                        i + 1,
                        order@.len() as int,
                        preds0,
                        equivs0,
                    );
                    assert(path_plan_spec(arities, root, entries, order@, preds0, equivs0)
                        == Err::<Seq<StageView>, PlanError>(PlanError::MissingArrangement {
                        root,
                        step: i,
                    }));
                }
                return Err(PlanError::MissingArrangement { root, step: i });
            }
            Some(flavor) => flavor,
        };
        remove_keys(&mut equivs, &rebased);
        let time_flavor = if peer > root {
            TimeFlavor::Alt
        } else {
            TimeFlavor::Neu
        };
        let lookup_stage = DeltaStage::Lookup {
            peer,
            arrangement_key: clone_exprs(&step.key),
            probe_key: probe,
            time_flavor,
            arrangement_flavor: flavor,
        };
        let ghost lookup_view = lookup_stage@;
        stages.push(lookup_stage);
        proof {
            assert(stage_views(stages@) =~= sv_before.push(lookup_view));
        }
        let mut peer_cols = mapper.global_columns(peer);
        let ghost cols_before = source_columns@;
        source_columns.append(&mut peer_cols);
        proof {
            assert(source_columns@ == cols_before + global_cols_spec(arities, peer as int));
        }
        let ghost sv_mid = stage_views(stages@);
        let ghost equivs_mid = classes_view(equivs@);
        match build_filter(&source_columns, &mut preds, &mut equivs) {
            Some(stage) => {
                let ghost fv = DeltaStage::Filter(stage)@;
                stages.push(DeltaStage::Filter(stage));
                proof {
                    assert(stage_views(stages@) =~= sv_mid.push(fv));
                }
            }
            None => {}
        }
        proof {
            // The step taken matches the specification of one traversal step.
            let stepped = step_result(arities, root, entries, st_before, peer, step.key@, i as usize);
            assert(stepped matches Ok(p) && p.0 == (PathState {
                cols: source_columns@,
                equivalences: classes_view(equivs@),
                predicates: preds@,
            }) && stage_views(stages@) == sv_before + p.1);
            // Provenance coverage: previously held inputs survive the append,
            // and the peer's columns are now held.
            assert forall|inp: int, k: int|
                0 <= inp < arities.len() && 0 <= k < arities[inp] && cols_before.contains(
                    global_cols_spec(arities, inp)[k],
                ) implies source_columns@.contains(
                #[trigger] global_cols_spec(arities, inp)[k],
            ) by {
                lemma_contains_append(
                    cols_before,
                    global_cols_spec(arities, peer as int),
                    global_cols_spec(arities, inp)[k],
                );
            }
            assert forall|k: int| 0 <= k < arities[peer as int] implies source_columns@.contains(
                #[trigger] global_cols_spec(arities, peer as int)[k],
            ) by {
                assert(global_cols_spec(arities, peer as int).contains(
                    global_cols_spec(arities, peer as int)[k],
                ));
                lemma_contains_append(
                    cols_before,
                    global_cols_spec(arities, peer as int),
                    global_cols_spec(arities, peer as int)[k],
                );
            }
        }
        i += 1;
    }

    // Final permutation back to canonical global column order.
    let total = mapper.total_columns();
    let mut permutation: Vec<usize> = Vec::new();
    let mut c: usize = 0;
    while c < total
        invariant
            c <= total,
            mapper.wf(),
            arities == mapper.arities@,
            root < arities.len(),
            order_wf(order@, root, arities),
            total == offset_of(arities, arities.len() as int),
            holds_input_cols(source_columns@, arities, root as int),
            forall|j: int| 0 <= j < order@.len() ==> holds_input_cols(
                source_columns@,
                arities,
                (#[trigger] order@[j]).peer as int,
            ),
            permutation@.len() == c,
            forall|d: int| 0 <= d < c ==> permutation@[d] == first_pos(
                source_columns@,
                d as usize,
            ) as usize,
        decreases total - c,
    {
        proof {
            lemma_input_of_col(arities, c as int);
            let inp = input_of_col(arities, c as int);
            if inp != root {
                assert(covered_by(order@, inp));
                let j = choose|j: int| 0 <= j < order@.len() && (#[trigger] order@[j]).peer == inp;
                assert(holds_input_cols(source_columns@, arities, inp));
            }
            let k = c - offset_of(arities, inp);
            assert(global_cols_spec(arities, inp)[k] == c as usize);
            assert(source_columns@.contains(c as usize));
        }
        let pos = position_of(&source_columns, c).unwrap();
        permutation.push(pos);
        c += 1;
    }
    proof {
        assert(permutation@ =~= final_permutation(arities, source_columns@));
    }
    stages.push(DeltaStage::Permute { permutation });
    proof {
        let partial = path_partial_spec(
            arities,
            root,
            entries,
            order@,
            order@.len() as int,
            preds0,
            equivs0,
        );
        assert(partial matches Ok(p) && stage_views(stages@) =~= p.1.push(
            StageView::Permute { permutation: final_permutation(arities, p.0.cols) },
        ));
    }
    Ok(DeltaPathPlan { root, stages })
}

/// Whether one stage is well-typed against the working-row arity it meets.
pub open spec fn stage_wf_at(s: StageView, arities: Seq<usize>, arity: int) -> bool {
    match s {
        StageView::Filter { predicates, equivalences } => crate::filter::filter_stage_wf(
            predicates,
            equivalences,
            arity,
        ),
        StageView::Lookup { peer, arrangement_key, probe_key, .. } => {
            &&& (peer as int) < arities.len()
            &&& crate::expr::exprs_wf(probe_key, arity)
            &&& crate::expr::exprs_wf(arrangement_key, arities[peer as int] as int)
        },
        StageView::Permute { permutation } => forall|k: int|
            0 <= k < permutation.len() ==> ((#[trigger] permutation[k]) as int) < arity,
    }
}

/// The working-row arity after one stage.
pub open spec fn stage_next_arity(s: StageView, arities: Seq<usize>, arity: int) -> int {
    match s {
        StageView::Filter { .. } => arity,
        StageView::Lookup { peer, .. } => arity + arities[peer as int],
        StageView::Permute { permutation } => permutation.len() as int,
    }
}

/// The lockstep invariant between column provenance and working-row width:
/// every stage is well-typed against the arity the preceding stages leave.
pub open spec fn stages_wf(stages: Seq<StageView>, arities: Seq<usize>, arity: int) -> bool
    decreases stages.len(),
{
    stages.len() == 0 || (stage_wf_at(stages[0], arities, arity) && stages_wf(
        stages.drop_first(),
        arities,
        stage_next_arity(stages[0], arities, arity),
    ))
}

/// The working-row arity a stage list leaves behind.
pub open spec fn stages_end_arity(stages: Seq<StageView>, arities: Seq<usize>, arity: int) -> int
    decreases stages.len(),
{
    if stages.len() == 0 {
        arity
    } else {
        stages_end_arity(
            stages.drop_first(),
            arities,
            stage_next_arity(stages[0], arities, arity),
        )
    }
}

pub proof fn lemma_stages_wf_append(
    a: Seq<StageView>,
    b: Seq<StageView>,
    arities: Seq<usize>,
    arity: int,
)
    requires
        stages_wf(a, arities, arity),
        stages_wf(b, arities, stages_end_arity(a, arities, arity)),
    ensures
        stages_wf(a + b, arities, arity),
        stages_end_arity(a + b, arities, arity) == stages_end_arity(
            b,
            arities,
            stages_end_arity(a, arities, arity),
        ),
    decreases a.len(),
{
    if a.len() == 0 {
        assert(a + b =~= b);
    } else {
        assert((a + b)[0] == a[0]);
        assert((a + b).drop_first() =~= a.drop_first() + b);
        lemma_stages_wf_append(a.drop_first(), b, arities, stage_next_arity(a[0], arities, arity));
    }
}

/// A translated probe key references only working-row positions.
pub proof fn lemma_translate_wf(
    keys: Seq<ScalarExpr>,
    cols: Seq<usize>,
    classes: Seq<Seq<ScalarExpr>>,
)
    ensures
        translate_keys_spec(keys, cols, classes) matches Some(probe) ==> crate::expr::exprs_wf(
            probe,
            cols.len() as int,
        ),
    decreases keys.len(),
{
    if keys.len() > 0 {
        lemma_translate_wf(keys.drop_last(), cols, classes);
        match translate_keys_spec(keys.drop_last(), cols, classes) {
            None => {}
            Some(init) => {
                match find_bound_spec(keys.last(), cols, classes) {
                    None => {}
                    Some(b) => {
                        lemma_find_bound_supported(keys.last(), cols, classes);
                        crate::expr::lemma_rewrite_wf(b, cols);
                        let probe = init.push(rewrite_spec(b, cols));
                        assert forall|k: int| 0 <= k < probe.len() implies expr_wf(
                            #[trigger] probe[k],
                            cols.len() as int,
                        ) by {
                            if k < init.len() {
                                assert(probe[k] == init[k]);
                            }
                        }
                    }
                }
            }
        }
    }
}

/// The staged filter over `cols` is well-typed against `cols.len()` and
/// leaves the arity unchanged.
pub proof fn lemma_filter_views_wf(
    preds: Seq<ScalarExpr>,
    classes: Seq<Seq<ScalarExpr>>,
    cols: Seq<usize>,
    arities: Seq<usize>,
)
    ensures
        stages_wf(filter_views(preds, classes, cols), arities, cols.len() as int),
        stages_end_arity(filter_views(preds, classes, cols), arities, cols.len() as int)
            == cols.len(),
{
    let fv = filter_views(preds, classes, cols);
    crate::filter::lemma_ready_preds_wf(preds, cols);
    crate::filter::lemma_ready_equivs_wf(classes, cols);
    assert(stages_wf(Seq::<StageView>::empty(), arities, cols.len() as int));
    assert(stages_end_arity(Seq::<StageView>::empty(), arities, cols.len() as int) == cols.len());
    if fv.len() > 0 {
        assert(fv.drop_first() =~= Seq::<StageView>::empty());
        assert(stage_wf_at(fv[0], arities, cols.len() as int));
        assert(stage_next_arity(fv[0], arities, cols.len() as int) == cols.len());
    }
}

/// The delta stream the renderer builds is well-typed throughout: the
/// working-row width and the column provenance stay in lockstep, and after
/// `n` steps the provenance holds the columns of the root and of every peer
/// visited.
pub proof fn lemma_partial_wf(
    arities: Seq<usize>,
    root: usize,
    entries: Seq<ArrangementEntry>,
    order: Seq<DeltaPathStep>,
    n: int,
    preds0: Seq<ScalarExpr>,
    equivs0: Seq<Seq<ScalarExpr>>,
)
    requires
        0 <= n <= order.len(),
        (root as int) < arities.len(),
        order_wf(order, root, arities),
    ensures
        path_partial_spec(arities, root, entries, order, n, preds0, equivs0) matches Ok(p) ==> {
            &&& stages_wf(p.1, arities, arities[root as int] as int)
            &&& stages_end_arity(p.1, arities, arities[root as int] as int) == p.0.cols.len()
            &&& holds_input_cols(p.0.cols, arities, root as int)
            &&& forall|j: int| 0 <= j < n ==> holds_input_cols(
                p.0.cols,
                arities,
                (#[trigger] order[j]).peer as int,
            )
        },
    decreases n,
{
    let a0 = arities[root as int] as int;
    if n == 0 {
        let cols0 = global_cols_spec(arities, root as int);
        lemma_filter_views_wf(preds0, canon_classes_spec(equivs0), cols0, arities);
        assert forall|k: int| 0 <= k < arities[root as int] implies cols0.contains(
            #[trigger] global_cols_spec(arities, root as int)[k],
        ) by {
            assert(cols0[k] == global_cols_spec(arities, root as int)[k]);
        }
    } else {
        lemma_partial_wf(arities, root, entries, order, n - 1, preds0, equivs0);
        match path_partial_spec(arities, root, entries, order, n - 1, preds0, equivs0) {
            Err(_) => {}
            Ok(p) => {
                let st = p.0;
                let peer = order[n - 1].peer;
                let key = order[n - 1].key@;
                let rebased = key.map_values(
                    |e: ScalarExpr| shift_spec(e, offset_of(arities, peer as int)),
                );
                match translate_keys_spec(rebased, st.cols, st.equivalences) {
                    None => {}
                    Some(probe) => {
                        match catalog_flavor(entries, peer, key) {
                            None => {}
                            Some(af) => {
                                lemma_translate_wf(rebased, st.cols, st.equivalences);
                                let equivs1 = remove_keys_classes(st.equivalences, rebased);
                                let cols1 = st.cols + global_cols_spec(arities, peer as int);
                                let lookup = StageView::Lookup {
                                    peer,
                                    arrangement_key: key,
                                    probe_key: probe,
                                    time_flavor: flavor_rule(root as int, peer as int),
                                    arrangement_flavor: af,
                                };
                                let fs = filter_views(st.predicates, equivs1, cols1);
                                lemma_filter_views_wf(st.predicates, equivs1, cols1, arities);
                                assert(cols1.len() == st.cols.len() + arities[peer as int]);
                                assert(stage_wf_at(lookup, arities, st.cols.len() as int));
                                let sv2 = seq![lookup] + fs;
                                assert(sv2[0] == lookup);
                                assert(sv2.drop_first() =~= fs);
                                assert(stages_wf(sv2, arities, st.cols.len() as int));
                                assert(stages_end_arity(sv2, arities, st.cols.len() as int)
                                    == cols1.len());
                                lemma_stages_wf_append(p.1, sv2, arities, a0);
                                // Provenance coverage survives the append and
                                // gains the peer's columns.
                                assert forall|inp: int, k: int|
                                    0 <= inp < arities.len() && 0 <= k < arities[inp]
                                        && st.cols.contains(global_cols_spec(arities, inp)[k])
                                    implies cols1.contains(
                                    #[trigger] global_cols_spec(arities, inp)[k],
                                ) by {
                                    lemma_contains_append(
                                        st.cols,
                                        global_cols_spec(arities, peer as int),
                                        global_cols_spec(arities, inp)[k],
                                    );
                                }
                                assert forall|k: int|
                                    0 <= k < arities[peer as int] implies cols1.contains(
                                    #[trigger] global_cols_spec(arities, peer as int)[k],
                                ) by {
                                    assert(global_cols_spec(arities, peer as int).contains(
                                        global_cols_spec(arities, peer as int)[k],
                                    ));
                                    lemma_contains_append(
                                        st.cols,
                                        global_cols_spec(arities, peer as int),
                                        global_cols_spec(arities, peer as int)[k],
                                    );
                                }
                            }
                        }
                    }
                }
            }
        }
    }
}

/// The complete rendered delta stream — traversal stages and final
/// permutation — is well-typed against the root input's arity: what the
/// evaluator requires of a stage list.
pub proof fn lemma_path_plan_wf(
    arities: Seq<usize>,
    root: usize,
    entries: Seq<ArrangementEntry>,
    order: Seq<DeltaPathStep>,
    preds0: Seq<ScalarExpr>,
    equivs0: Seq<Seq<ScalarExpr>>,
)
    requires
        (root as int) < arities.len(),
        order_wf(order, root, arities),
    ensures
        path_plan_spec(arities, root, entries, order, preds0, equivs0) matches Ok(sv)
            ==> stages_wf(sv, arities, arities[root as int] as int),
{
    lemma_partial_wf(arities, root, entries, order, order.len() as int, preds0, equivs0);
    match path_partial_spec(arities, root, entries, order, order.len() as int, preds0, equivs0) {
        Err(_) => {}
        Ok(p) => {
            let total = offset_of(arities, arities.len() as int);
            lemma_offset_mono(arities, 0, arities.len() as int);
            let perm = final_permutation(arities, p.0.cols);
            assert(perm.len() == total);
            assert forall|c: int| 0 <= c < perm.len() implies ((#[trigger] perm[c]) as int)
                < p.0.cols.len() by {
                lemma_input_of_col(arities, c);
                let inp = input_of_col(arities, c);
                if inp != root {
                    assert(covered_by(order, inp));
                    let j = choose|j: int|
                        0 <= j < order.len() && (#[trigger] order[j]).peer == inp;
                    assert(holds_input_cols(p.0.cols, arities, inp));
                }
                let k = c - offset_of(arities, inp);
                assert(global_cols_spec(arities, inp)[k] == c as usize);
                assert(p.0.cols.contains(c as usize));
                crate::expr::lemma_first_pos(p.0.cols, c as usize);
            }
            let pstage = StageView::Permute { permutation: perm };
            assert(stage_wf_at(pstage, arities, p.0.cols.len() as int));
            let sv2 = seq![pstage];
            assert(sv2[0] == pstage);
            assert(sv2.drop_first() =~= Seq::<StageView>::empty());
            assert(stages_wf(Seq::<StageView>::empty(), arities, perm.len() as int));
            assert(stages_wf(sv2, arities, p.0.cols.len() as int));
            lemma_stages_wf_append(p.1, sv2, arities, arities[root as int] as int);
            assert(p.1.push(pstage) =~= p.1 + sv2);
        }
    }
}

/// Error-stream deduplication: however often an arrangement is probed
/// across the delta streams, it stands among the combined error sources
/// exactly once — the deduplicated list has no duplicates, and holds
/// exactly the sources the traversal touches at least once.
pub proof fn lemma_error_source_dedup(paths: Seq<Seq<StageView>>)
    ensures
        dedup_sources(raw_sources(paths)).no_duplicates(),
        forall|x: ErrorSourceView| #[trigger]
            dedup_sources(raw_sources(paths)).contains(x) <==> raw_sources(paths).contains(x),
{
    lemma_dedup_sources(raw_sources(paths));
}

/// Running the renderer twice on an identical plan produces identical
/// dataflow descriptions: rendering is a pure function of the plan, so the
/// two dataflows are isomorphic and yield identical outputs.
pub proof fn lemma_render_deterministic(
    p1: DeltaJoinPlan,
    p2: DeltaJoinPlan,
    arities: Seq<usize>,
    entries: Seq<ArrangementEntry>,
    orders: Seq<Vec<DeltaPathStep>>,
    preds: Seq<ScalarExpr>,
    equivs: Seq<Seq<ScalarExpr>>,
)
    requires
        join_paths_spec(arities, entries, orders, orders.len() as int, preds, equivs) == Ok::<
            Seq<Seq<StageView>>,
            PlanError,
        >(paths_views(p1.paths@)),
        sources_view(p1.error_sources@) == dedup_sources(raw_sources(paths_views(p1.paths@))),
        join_paths_spec(arities, entries, orders, orders.len() as int, preds, equivs) == Ok::<
            Seq<Seq<StageView>>,
            PlanError,
        >(paths_views(p2.paths@)),
        sources_view(p2.error_sources@) == dedup_sources(raw_sources(paths_views(p2.paths@))),
    ensures
        paths_views(p1.paths@) == paths_views(p2.paths@),
        sources_view(p1.error_sources@) == sources_view(p2.error_sources@),
{
}

/// Every lookup stage of the delta stream rooted at `root` carries the
/// flavor that the alt/neu rule assigns to its peer.
pub proof fn lemma_lookup_flavors(
    arities: Seq<usize>,
    root: usize,
    entries: Seq<ArrangementEntry>,
    order: Seq<DeltaPathStep>,
    n: int,
    preds: Seq<ScalarExpr>,
    equivs: Seq<Seq<ScalarExpr>>,
)
    requires
        0 <= n,
    ensures
        path_partial_spec(arities, root, entries, order, n, preds, equivs) matches Ok(p)
            ==> forall|s: int|
            0 <= s < p.1.len() ==> ((#[trigger] p.1[s]) matches StageView::Lookup {
                peer,
                time_flavor,
                ..
            } ==> time_flavor == flavor_rule(root as int, peer as int)),
    decreases n,
{
    if n <= 0 {
    } else {
        lemma_lookup_flavors(arities, root, entries, order, n - 1, preds, equivs);
        let prev = path_partial_spec(arities, root, entries, order, n - 1, preds, equivs);
        match prev {
            Err(_) => {}
            Ok(pp) => {
                let stepped = step_result(
                    arities,
                    root,
                    entries,
                    pp.0,
                    order[n - 1].peer,
                    order[n - 1].key@,
                    (n - 1) as usize,
                );
                match stepped {
                    Err(_) => {}
                    Ok(sp) => {
                        let whole = pp.1 + sp.1;
                        assert forall|s: int|
                            0 <= s < whole.len() implies ((#[trigger] whole[s])
                            matches StageView::Lookup { peer, time_flavor, .. } ==> time_flavor
                            == flavor_rule(root as int, peer as int)) by {
                            if s < pp.1.len() {
                                assert(whole[s] == pp.1[s]);
                            } else {
                                assert(whole[s] == sp.1[s - pp.1.len()]);
                            }
                        }
                    }
                }
            }
        }
    }
}

/// The complementary-lookup law: the full delta stream keeps the alt/neu
/// rule in every lookup stage. With two inputs this is a complementary
/// pair — the stream rooted at input 0 consults its peer at `alt`, the one
/// rooted at input 1 consults its peer at `neu`.
pub proof fn lemma_path_flavors(
    arities: Seq<usize>,
    root: usize,
    entries: Seq<ArrangementEntry>,
    order: Seq<DeltaPathStep>,
    preds: Seq<ScalarExpr>,
    equivs: Seq<Seq<ScalarExpr>>,
)
    ensures
        path_plan_spec(arities, root, entries, order, preds, equivs) matches Ok(sv) ==> forall|
            s: int,
        |
            0 <= s < sv.len() ==> ((#[trigger] sv[s]) matches StageView::Lookup {
                peer,
                time_flavor,
                ..
            } ==> time_flavor == flavor_rule(root as int, peer as int)),
{
    lemma_lookup_flavors(arities, root, entries, order, order.len() as int, preds, equivs);
    let partial = path_partial_spec(
        arities,
        root,
        entries,
        order,
        order.len() as int,
        preds,
        equivs,
    );
    match partial {
        Err(_) => {}
        Ok(p) => {
            let sv = p.1.push(
                StageView::Permute { permutation: final_permutation(arities, p.0.cols) },
            );
            assert forall|s: int|
                0 <= s < sv.len() implies ((#[trigger] sv[s]) matches StageView::Lookup {
                peer,
                time_flavor,
                ..
            } ==> time_flavor == flavor_rule(root as int, peer as int)) by {
                if s < p.1.len() {
                    assert(sv[s] == p.1[s]);
                } else {
                    assert(sv[s] is Permute);
                }
            }
        }
    }
}

/// A single-input delta join is degenerate: with no peers to visit, the
/// delta stream consists solely of the pushed-down filter (when any
/// constraint is ready) followed by the order-restoring permutation — no
/// lookup stage at all.
pub proof fn lemma_single_input_path(
    arities: Seq<usize>,
    root: usize,
    entries: Seq<ArrangementEntry>,
    preds: Seq<ScalarExpr>,
    equivs: Seq<Seq<ScalarExpr>>,
)
    ensures
        path_plan_spec(arities, root, entries, Seq::empty(), preds, equivs) matches Ok(sv) ==> {
            &&& 1 <= sv.len() <= 2
            &&& sv.last() is Permute
            &&& forall|s: int| 0 <= s < sv.len() - 1 ==> (#[trigger] sv[s]) is Filter
        },
{
    let order = Seq::<DeltaPathStep>::empty();
    let partial = path_partial_spec(arities, root, entries, order, 0, preds, equivs);
    assert(partial matches Ok(p) && p.1 == init_stages(arities, root, preds, equivs));
}

proof fn lemma_partial_keeps_first(
    arities: Seq<usize>,
    root: usize,
    entries: Seq<ArrangementEntry>,
    order: Seq<DeltaPathStep>,
    n: int,
    preds: Seq<ScalarExpr>,
    equivs: Seq<Seq<ScalarExpr>>,
)
    requires
        0 <= n,
        init_stages(arities, root, preds, equivs).len() > 0,
    ensures
        path_partial_spec(arities, root, entries, order, n, preds, equivs) matches Ok(p) ==> {
            &&& p.1.len() > 0
            &&& p.1[0] == init_stages(arities, root, preds, equivs)[0]
        },
    decreases n,
{
    if n > 0 {
        lemma_partial_keeps_first(arities, root, entries, order, n - 1, preds, equivs);
    }
}

/// A predicate that depends only on columns of the root input is staged in
/// the delta stream's very first stage: the pushed-down filter that runs
/// before any lookup.
pub proof fn lemma_root_predicate_first(
    arities: Seq<usize>,
    root: usize,
    entries: Seq<ArrangementEntry>,
    order: Seq<DeltaPathStep>,
    preds: Seq<ScalarExpr>,
    equivs: Seq<Seq<ScalarExpr>>,
    p: ScalarExpr,
)
    requires
        preds.contains(p),
        supported(p, global_cols_spec(arities, root as int)),
    ensures
        path_plan_spec(arities, root, entries, order, preds, equivs) matches Ok(sv) ==> {
            &&& sv.len() > 0
            &&& (sv[0] matches StageView::Filter { predicates: rp, .. } && rp.contains(
                rewrite_spec(p, global_cols_spec(arities, root as int)),
            ))
        },
{
    let cols0 = global_cols_spec(arities, root as int);
    crate::filter::lemma_sup_filter_membership(preds, cols0, true, p);
    let sf = sup_filter(preds, cols0, true);
    assert(sf.contains(p));
    let j = choose|j: int| 0 <= j < sf.len() && sf[j] == p;
    let rp0 = ready_preds_spec(preds, cols0);
    assert(rp0[j] == rewrite_spec(p, cols0));
    assert(rp0.contains(rewrite_spec(p, cols0)));
    assert(init_stages(arities, root, preds, equivs) == seq![
        StageView::Filter {
            predicates: rp0,
            equivalences: ready_equivs_spec(canon_classes_spec(equivs), cols0),
        },
    ]);
    lemma_partial_keeps_first(arities, root, entries, order, order.len() as int, preds, equivs);
    let partial = path_partial_spec(
        arities,
        root,
        entries,
        order,
        order.len() as int,
        preds,
        equivs,
    );
    match partial {
        Err(_) => {}
        Ok(pp) => {
            let sv = pp.1.push(
                StageView::Permute { permutation: final_permutation(arities, pp.0.cols) },
            );
            assert(sv[0] == pp.1[0]);
        }
    }
}

/// Copies a list of arities.
fn clone_usizes(v: &Vec<usize>) -> (r: Vec<usize>)
    ensures
        r@ == v@,
{
    let mut out: Vec<usize> = Vec::new();
    let mut i: usize = 0;
    while i < v.len()
        invariant
            i <= v@.len(),
            out@ == v@.take(i as int),
        decreases v@.len() - i,
    {
        out.push(v[i]);
        proof {
            assert(v@.take(i as int).push(v@[i as int]) =~= v@.take(i + 1));
        }
        i += 1;
    }
    proof {
        assert(v@.take(v@.len() as int) =~= v@);
    }
    out
}

/// Well-formedness of a join node: global columns fit `usize`, and under the
/// delta-query implementation there is one well-formed traversal order per
/// input.
pub open spec fn join_wf(join: JoinExpr) -> bool {
    let arities = join.input_arities@;
    &&& offset_of(arities, arities.len() as int) <= usize::MAX
    &&& (match join.implementation {
        JoinImplementation::DeltaQuery(orders) => {
            &&& orders@.len() == arities.len()
            &&& forall|r: int|
                0 <= r < orders@.len() ==> order_wf((#[trigger] orders@[r])@, r as usize, arities)
        },
        JoinImplementation::Differential => true,
    })
}

/// The rendering context: the catalog of arrangements the surrounding
/// dataflow has made available.
#[derive(Debug)]
pub struct Context {
    pub arrangements: Vec<ArrangementEntry>,
}

impl Context {
    pub fn new(arrangements: Vec<ArrangementEntry>) -> (r: Context)
        ensures
            r.arrangements@ == arrangements@,
    {
        Context { arrangements }
    }

    /// Consults the catalog for an arrangement of `input` keyed by `key`.
    pub fn arrangement(&self, input: usize, key: &Vec<ScalarExpr>) -> (r: Option<
        ArrangementFlavor,
    >)
        ensures
            r == catalog_flavor(self.arrangements@, input, key@),
    {
        catalog_lookup(&self.arrangements, input, key)
    }

    /// Renders a join node with the delta-query implementation: one delta
    /// stream per input — their union is the join's changelog — together
    /// with the deduplicated upstream error sources to fold into the
    /// combined error stream.
    pub fn render_delta_join(&self, join: &JoinExpr, predicates: &Vec<ScalarExpr>) -> (r: Result<
        DeltaJoinPlan,
        PlanError,
    >)
        requires
            join_wf(*join),
        ensures
            (match r {
                Ok(plan) => (match join.implementation {
                    JoinImplementation::DeltaQuery(orders) => {
                        &&& join_paths_spec(
                            join.input_arities@,
                            self.arrangements@,
                            orders@,
                            orders@.len() as int,
                            predicates@,
                            classes_view(join.equivalences@),
                        ) == Ok::<Seq<Seq<StageView>>, PlanError>(paths_views(plan.paths@))
                        &&& plan.paths@.len() == orders@.len()
                        &&& forall|j: int|
                            0 <= j < plan.paths@.len() ==> (#[trigger] plan.paths@[j]).root == j
                        &&& sources_view(plan.error_sources@) == dedup_sources(
                            raw_sources(paths_views(plan.paths@)),
                        )
                    },
                    JoinImplementation::Differential => false,
                }),
                Err(e) => (match join.implementation {
                    JoinImplementation::DeltaQuery(orders) => join_paths_spec(
                        join.input_arities@,
                        self.arrangements@,
                        orders@,
                        orders@.len() as int,
                        predicates@,
                        classes_view(join.equivalences@),
                    ) == Err::<Seq<Seq<StageView>>, PlanError>(e),
                    JoinImplementation::Differential => e == PlanError::NotDeltaQuery,
                }),
            }),
    {
        let orders = match &join.implementation {
            JoinImplementation::DeltaQuery(orders) => orders,
            JoinImplementation::Differential => {
                return Err(PlanError::NotDeltaQuery);
            }
        };
        let ghost arities = join.input_arities@;
        let ghost entries = self.arrangements@;
        let ghost preds0 = predicates@;
        let ghost equivs0 = classes_view(join.equivalences@);
        let ghost ov = orders@;
        let mapper = JoinInputMapper::new(clone_usizes(&join.input_arities));
        let n = orders.len();
        let mut paths: Vec<DeltaPathPlan> = Vec::new();
        proof {
            assert(paths_views(paths@) =~= Seq::<Seq<StageView>>::empty());
        }
        let mut root: usize = 0;
        while root < n
            invariant
                root <= n,
                n == ov.len(),
                orders@ == ov,
                join_wf(*join),
                (join.implementation matches JoinImplementation::DeltaQuery(ords) && ords@
                    == ov),
                mapper.wf(),
                mapper.arities@ == join.input_arities@,
                arities == join.input_arities@,
                entries == self.arrangements@,
                preds0 == predicates@,
                equivs0 == classes_view(join.equivalences@),
                join_paths_spec(arities, entries, ov, root as int, preds0, equivs0) == Ok::<
                    Seq<Seq<StageView>>,
                    PlanError,
                >(paths_views(paths@)),
                paths@.len() == root,
                forall|j: int| 0 <= j < root ==> (#[trigger] paths@[j]).root == j,
            decreases n - root,
        {
            let ghost pv_before = paths_views(paths@);
            proof {
                assert(order_wf(ov[root as int]@, root, arities));
            }
            match render_delta_path(
                &mapper,
                root,
                &orders[root],
                &self.arrangements,
                predicates,
                &join.equivalences,
            ) {
                Err(e) => {
                    proof {
                        assert(join_paths_spec(arities, entries, ov, root + 1, preds0, equivs0)
                            == Err::<Seq<Seq<StageView>>, PlanError>(e));
                        lemma_join_paths_err(
                            arities,
                            entries,
                            ov,
                            root + 1,
                            ov.len() as int,
                            preds0,
                            equivs0,
                        );
                    }
                    return Err(e);
                }
                Ok(p) => {
                    proof {
                        assert(paths_views(paths@.push(p)) =~= pv_before.push(
                            stage_views(p.stages@),
                        ));
                        assert(join_paths_spec(arities, entries, ov, root + 1, preds0, equivs0)
                            == Ok::<Seq<Seq<StageView>>, PlanError>(pv_before.push(
                            stage_views(p.stages@),
                        )));
                    }
                    paths.push(p);
                }
            }
            root += 1;
        }

        // Upstream error sources, first occurrence only: each root input's
        // error collection, and the error collection of every arrangement a
        // lookup probes.
        let ghost pv = paths_views(paths@);
        let mut error_sources: Vec<ErrorSource> = Vec::new();
        let ghost mut raw: Seq<ErrorSourceView> = Seq::empty();
        proof {
            assert(sources_view(error_sources@) =~= dedup_sources(raw));
            assert(pv.take(0) =~= Seq::<Seq<StageView>>::empty());
        }
        let mut r: usize = 0;
        while r < paths.len()
            invariant
                r <= paths@.len(),
                pv == paths_views(paths@),
                pv.len() == paths@.len(),
                forall|j: int|
                    0 <= j < paths@.len() ==> pv[j] == stage_views((#[trigger] paths@[j]).stages@),
                sources_view(error_sources@) == dedup_sources(raw),
                raw == raw_sources(pv.take(r as int)),
            decreases paths@.len() - r,
        {
            let cand = ErrorSource::Input(r);
            let ghost x = cand@;
            proof {
                lemma_dedup_sources(raw);
            }
            let seen = contains_source(&error_sources, &cand);
            let ghost before = sources_view(error_sources@);
            if !seen {
                error_sources.push(cand);
            }
            proof {
                assert(raw.push(x).drop_last() =~= raw);
                if seen {
                    assert(sources_view(error_sources@) =~= dedup_sources(raw.push(x)));
                } else {
                    assert(sources_view(error_sources@) =~= before.push(x));
                    assert(dedup_sources(raw.push(x)) == dedup_sources(raw).push(x));
                }
                raw = raw.push(x);
            }
            let path = &paths[r];
            let ghost sv_r = stage_views(path.stages@);
            proof {
                assert(sv_r.take(0) =~= Seq::<StageView>::empty());
                assert(raw =~= raw_sources(pv.take(r as int)) + seq![
                    ErrorSourceView::Input(r),
                ] + arr_sources_of(sv_r.take(0)));
            }
            let mut s: usize = 0;
            while s < path.stages.len()
                invariant
                    s <= path.stages@.len(),
                    pv == paths_views(paths@),
                    pv.len() == paths@.len(),
                    r < paths@.len(),
                    forall|j: int|
                        0 <= j < paths@.len() ==> pv[j] == stage_views(
                            (#[trigger] paths@[j]).stages@,
                        ),
                    sv_r == stage_views(path.stages@),
                    sv_r.len() == path.stages@.len(),
                    forall|t: int|
                        0 <= t < path.stages@.len() ==> sv_r[t] == (#[trigger] path.stages@[t])@,
                    sources_view(error_sources@) == dedup_sources(raw),
                    raw == raw_sources(pv.take(r as int)) + seq![
                        ErrorSourceView::Input(r),
                    ] + arr_sources_of(sv_r.take(s as int)),
                decreases path.stages@.len() - s,
            {
                proof {
                    assert(sv_r.take(s + 1).drop_last() =~= sv_r.take(s as int));
                    assert(sv_r.take(s + 1).last() == sv_r[s as int]);
                }
                match &path.stages[s] {
                    DeltaStage::Lookup { peer, arrangement_key, arrangement_flavor, .. } => {
                        let cand = ErrorSource::Arrangement {
                            input: *peer,
                            key: clone_exprs(arrangement_key),
                            flavor: *arrangement_flavor,
                        };
                        let ghost x = cand@;
                        proof {
                            lemma_dedup_sources(raw);
                            assert(arr_sources_of(sv_r.take(s + 1)) == arr_sources_of(
                                sv_r.take(s as int),
                            ).push(x));
                        }
                        let seen = contains_source(&error_sources, &cand);
                        let ghost before = sources_view(error_sources@);
                        if !seen {
                            error_sources.push(cand);
                        }
                        proof {
                            assert(raw.push(x).drop_last() =~= raw);
                            if seen {
                                assert(sources_view(error_sources@) =~= dedup_sources(
                                    raw.push(x),
                                ));
                            } else {
                                assert(sources_view(error_sources@) =~= before.push(x));
                                assert(dedup_sources(raw.push(x)) == dedup_sources(raw).push(x));
                            }
                            raw = raw.push(x);
                            assert(raw =~= raw_sources(pv.take(r as int)) + seq![
                                ErrorSourceView::Input(r),
                            ] + arr_sources_of(sv_r.take(s + 1)));
                        }
                    }
                    _ => {
                        proof {
                            assert(arr_sources_of(sv_r.take(s + 1)) == arr_sources_of(
                                sv_r.take(s as int),
                            ));
                            assert(raw =~= raw_sources(pv.take(r as int)) + seq![
                                ErrorSourceView::Input(r),
                            ] + arr_sources_of(sv_r.take(s + 1)));
                        }
                    }
                }
                s += 1;
            }
            proof {
                assert(sv_r.take(sv_r.len() as int) =~= sv_r);
                assert(pv.take(r + 1).drop_last() =~= pv.take(r as int));
                assert(pv.take(r + 1).last() == pv[r as int]);
                assert(raw =~= raw_sources(pv.take(r + 1)));
            }
            r += 1;
        }
        proof {
            assert(pv.take(pv.len() as int) =~= pv);
        }
        Ok(DeltaJoinPlan { paths, error_sources })
    }
}

} // verus!
