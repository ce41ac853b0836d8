//! Predicate / equivalence pushdown: extraction of constraints whose columns
//! are fully bound, their rewrite into working-row positions, and the
//! row-level semantics of the staged filter.

use vstd::prelude::*;

use crate::expr::{
    apply_binary, eval, eval_spec, expr_cmp, expr_compare, expr_eq, expr_wf, is_supported,
    rewrite_columns, rewrite_spec, supported, BinaryFunc, EvalError, ScalarExpr,
};
use crate::find::{first_where, has_match, lemma_first_where, lemma_first_where_unique};
use crate::mapper::{classes_view, first_supported_in, sup_pred};
use crate::row::{Datum, Row};

verus! {

// ------------------------------------------------------------------
// Canonicalization of equivalence classes (element-wise sort + dedup)
// ------------------------------------------------------------------

/// The predicate "`x` sorts at or before this element".
pub open spec fn le_pred(x: ScalarExpr) -> spec_fn(ScalarExpr) -> bool {
    |y: ScalarExpr| expr_cmp(x, y) <= 0
}

/// `x` inserted into `s` at the first position whose element does not sort
/// before `x`.
pub open spec fn insert_spec(x: ScalarExpr, s: Seq<ScalarExpr>) -> Seq<ScalarExpr> {
    s.insert(first_where(s, le_pred(x)), x)
}

/// `s` insertion-sorted under the canonical expression order.
pub open spec fn sort_spec(s: Seq<ScalarExpr>) -> Seq<ScalarExpr>
    decreases s.len(),
{
    if s.len() == 0 {
        Seq::empty()
    } else {
        insert_spec(s.last(), sort_spec(s.drop_last()))
    }
}

/// `s` with adjacent structural duplicates removed.
pub open spec fn dedup_adjacent_spec(s: Seq<ScalarExpr>) -> Seq<ScalarExpr>
    decreases s.len(),
{
    if s.len() == 0 {
        Seq::empty()
    } else if s.len() >= 2 && s.last() == s[s.len() - 2] {
        dedup_adjacent_spec(s.drop_last())
    } else {
        dedup_adjacent_spec(s.drop_last()).push(s.last())
    }
}

/// A class in canonical form: sorted, then deduplicated.
pub open spec fn canon_class_spec(class: Seq<ScalarExpr>) -> Seq<ScalarExpr> {
    dedup_adjacent_spec(sort_spec(class))
}

pub open spec fn canon_classes_spec(classes: Seq<Seq<ScalarExpr>>) -> Seq<Seq<ScalarExpr>> {
    classes.map_values(|c: Seq<ScalarExpr>| canon_class_spec(c))
}

/// The position where `x` is inserted to keep `acc` in canonical order.
fn insert_position(acc: &Vec<ScalarExpr>, x: &ScalarExpr) -> (r: usize)
    ensures
        r as int == first_where(acc@, le_pred(*x)),
        r <= acc@.len(),
{
    let mut p: usize = 0;
    while p < acc.len()
        invariant
            p <= acc@.len(),
            forall|j: int| 0 <= j < p ==> expr_cmp(*x, acc@[j]) > 0,
        decreases acc@.len() - p,
    {
        if expr_compare(x, &acc[p]) <= 0 {
            proof {
                assert(le_pred(*x)(acc@[p as int]));
                assert forall|j: int| 0 <= j < p implies !le_pred(*x)(acc@[j]) by {}
                lemma_first_where_unique(acc@, le_pred(*x), p as int);
            }
            return p;
        }
        p += 1;
    }
    proof {
        if has_match(acc@, le_pred(*x)) {
            let j = choose|j: int| 0 <= j < acc@.len() && #[trigger] le_pred(*x)(acc@[j]);
            assert(false);
        }
        lemma_first_where(acc@, le_pred(*x));
    }
    acc.len()
}

/// Insertion sort under the canonical expression order.
pub fn sort_exprs(v: &Vec<ScalarExpr>) -> (r: Vec<ScalarExpr>)
    ensures
        r@ == sort_spec(v@),
{
    let mut acc: Vec<ScalarExpr> = Vec::new();
    proof {
        assert(v@.take(0) =~= Seq::<ScalarExpr>::empty());
    }
    let mut i: usize = 0;
    while i < v.len()
        invariant
            i <= v@.len(),
            acc@ == sort_spec(v@.take(i as int)),
        decreases v@.len() - i,
    {
        let x = v[i].clone();
        let p = insert_position(&acc, &x);
        acc.insert(p, x);
        proof {
            assert(v@.take(i + 1).drop_last() =~= v@.take(i as int));
            assert(v@.take(i + 1).last() == v@[i as int]);
        }
        i += 1;
    }
    proof {
        assert(v@.take(v@.len() as int) =~= v@);
    }
    acc
}

/// Removes adjacent structural duplicates.
pub fn dedup_sorted(v: &Vec<ScalarExpr>) -> (r: Vec<ScalarExpr>)
    ensures
        r@ == dedup_adjacent_spec(v@),
{
    let mut out: Vec<ScalarExpr> = Vec::new();
    proof {
        assert(v@.take(0) =~= Seq::<ScalarExpr>::empty());
    }
    let mut i: usize = 0;
    while i < v.len()
        invariant
            i <= v@.len(),
            out@ == dedup_adjacent_spec(v@.take(i as int)),
        decreases v@.len() - i,
    {
        let keep = if i == 0 {
            true
        } else {
            !expr_eq(&v[i], &v[i - 1])
        };
        if keep {
            out.push(v[i].clone());
        }
        proof {
            let t = v@.take(i + 1);
            assert(t.drop_last() =~= v@.take(i as int));
            assert(t.last() == v@[i as int]);
            if i >= 1 {
                assert(t[t.len() - 2] == v@[i as int - 1]);
            }
        }
        i += 1;
    }
    proof {
        assert(v@.take(v@.len() as int) =~= v@);
    }
    out
}

/// Puts each equivalence class into canonical form: the private copy a delta
/// stream digests is sorted and deduplicated element-wise.
pub fn canonicalize_equivalences(equivalences: &mut Vec<Vec<ScalarExpr>>)
    ensures
        classes_view(final(equivalences)@) == canon_classes_spec(classes_view(old(equivalences)@)),
{
    let ghost cv = classes_view(old(equivalences)@);
    let mut out: Vec<Vec<ScalarExpr>> = Vec::new();
    let mut i: usize = 0;
    while i < equivalences.len()
        invariant
            i <= equivalences@.len(),
            equivalences@ == old(equivalences)@,
            cv == classes_view(equivalences@),
            cv.len() == equivalences@.len(),
            forall|j: int| 0 <= j < equivalences@.len() ==> cv[j] == equivalences@[j]@,
            out@.len() == i,
            forall|j: int| 0 <= j < i ==> #[trigger] out@[j]@ == canon_class_spec(cv[j]),
        decreases equivalences@.len() - i,
    {
        let sorted = sort_exprs(&equivalences[i]);
        let canon = dedup_sorted(&sorted);
        out.push(canon);
        i += 1;
    }
    proof {
        assert(classes_view(out@) =~= canon_classes_spec(cv));
    }
    *equivalences = out;
}

// ------------------------------------------------------------------
// Splitting expressions by support
// ------------------------------------------------------------------

/// The subsequence of `ps` whose support status equals `keep`.
pub open spec fn sup_filter(ps: Seq<ScalarExpr>, cols: Seq<usize>, keep: bool) -> Seq<ScalarExpr>
    decreases ps.len(),
{
    if ps.len() == 0 {
        Seq::empty()
    } else {
        let init = sup_filter(ps.drop_last(), cols, keep);
        if supported(ps.last(), cols) == keep {
            init.push(ps.last())
        } else {
            init
        }
    }
}

/// Membership in `sup_filter` is membership in `ps` with the right support.
pub proof fn lemma_sup_filter_membership(
    ps: Seq<ScalarExpr>,
    cols: Seq<usize>,
    keep: bool,
    e: ScalarExpr,
)
    ensures
        sup_filter(ps, cols, keep).contains(e) <==> (ps.contains(e) && supported(e, cols)
            == keep),
    decreases ps.len(),
{
    if ps.len() == 0 {
    } else {
        lemma_sup_filter_membership(ps.drop_last(), cols, keep, e);
        let init = sup_filter(ps.drop_last(), cols, keep);
        if ps.contains(e) && supported(e, cols) == keep {
            let j = choose|j: int| 0 <= j < ps.len() && ps[j] == e;
            if j < ps.len() - 1 {
                assert(ps.drop_last()[j] == e);
                assert(ps.drop_last().contains(e));
                if supported(ps.last(), cols) == keep {
                    let k = choose|k: int| 0 <= k < init.len() && init[k] == e;
                    assert(init.push(ps.last())[k] == e);
                    assert(sup_filter(ps, cols, keep).contains(e));
                } else {
                    assert(sup_filter(ps, cols, keep).contains(e));
                }
            } else {
                assert(ps.last() == e);
                assert(init.push(e)[init.len() as int] == e);
                assert(sup_filter(ps, cols, keep).contains(e));
            }
        }
        if sup_filter(ps, cols, keep).contains(e) {
            if supported(ps.last(), cols) == keep {
                let k = choose|k: int|
                    0 <= k < init.push(ps.last()).len() && init.push(ps.last())[k] == e;
                if k < init.len() {
                    assert(init.contains(e));
                    assert(ps.drop_last().contains(e));
                    let j = choose|j: int| 0 <= j < ps.drop_last().len() && ps.drop_last()[j] == e;
                    assert(ps[j] == e);
                    assert(ps.contains(e));
                } else {
                    assert(e == ps.last());
                    assert(ps[ps.len() - 1] == e);
                    assert(ps.contains(e));
                }
            } else {
                assert(init.contains(e));
                assert(ps.drop_last().contains(e));
                let j = choose|j: int| 0 <= j < ps.drop_last().len() && ps.drop_last()[j] == e;
                assert(ps[j] == e);
                assert(ps.contains(e));
            }
        }
    }
}

/// On a fully supported sequence the split is trivial.
pub proof fn lemma_sup_filter_all(s: Seq<ScalarExpr>, cols: Seq<usize>)
    requires
        forall|i: int| 0 <= i < s.len() ==> supported(s[i], cols),
    ensures
        sup_filter(s, cols, true) == s,
        sup_filter(s, cols, false) == Seq::<ScalarExpr>::empty(),
    decreases s.len(),
{
    if s.len() > 0 {
        assert(forall|i: int|
            0 <= i < s.drop_last().len() ==> #[trigger] s.drop_last()[i] == s[i]);
        lemma_sup_filter_all(s.drop_last(), cols);
        assert(supported(s.last(), cols));
        assert(s.drop_last().push(s.last()) =~= s);
    }
}

/// Moves the predicates fully supported by `cols` out of `predicates`,
/// returning them; the unsupported residue stays behind.
pub fn extract_predicates(cols: &Vec<usize>, predicates: &mut Vec<ScalarExpr>) -> (ready: Vec<
    ScalarExpr,
>)
    ensures
        final(predicates)@ == sup_filter(old(predicates)@, cols@, false),
        ready@ == sup_filter(old(predicates)@, cols@, true),
{
    let mut ready: Vec<ScalarExpr> = Vec::new();
    let mut resid: Vec<ScalarExpr> = Vec::new();
    proof {
        assert(predicates@.take(0) =~= Seq::<ScalarExpr>::empty());
    }
    let mut i: usize = 0;
    while i < predicates.len()
        invariant
            i <= predicates@.len(),
            predicates@ == old(predicates)@,
            ready@ == sup_filter(predicates@.take(i as int), cols@, true),
            resid@ == sup_filter(predicates@.take(i as int), cols@, false),
        decreases predicates@.len() - i,
    {
        let p = predicates[i].clone();
        if is_supported(&p, cols) {
            ready.push(p);
        } else {
            resid.push(p);
        }
        proof {
            assert(predicates@.take(i + 1).drop_last() =~= predicates@.take(i as int));
            assert(predicates@.take(i + 1).last() == predicates@[i as int]);
        }
        i += 1;
    }
    proof {
        assert(predicates@.take(predicates@.len() as int) =~= predicates@);
    }
    *predicates = resid;
    ready
}

// ------------------------------------------------------------------
// Extraction from one equivalence class
// ------------------------------------------------------------------

/// Whether some member of `class` is fully supported by `cols`.
pub open spec fn class_has_sup(class: Seq<ScalarExpr>, cols: Seq<usize>) -> bool {
    has_match(class, sup_pred(cols))
}

/// The index of the first supported member.
pub open spec fn class_first_sup(class: Seq<ScalarExpr>, cols: Seq<usize>) -> int {
    first_where(class, sup_pred(cols))
}

/// The members pulled out of `class`: every supported member after the first
/// supported one.
pub open spec fn class_pulled(class: Seq<ScalarExpr>, cols: Seq<usize>) -> Seq<ScalarExpr> {
    if class_has_sup(class, cols) {
        sup_filter(class.skip(class_first_sup(class, cols) + 1), cols, true)
    } else {
        Seq::empty()
    }
}

/// What is left of `class` after extraction: the first supported member stays
/// for future use, the other supported members leave.
pub open spec fn class_remaining(class: Seq<ScalarExpr>, cols: Seq<usize>) -> Seq<ScalarExpr> {
    if class_has_sup(class, cols) && class_pulled(class, cols).len() > 0 {
        class.take(class_first_sup(class, cols) + 1) + sup_filter(
            class.skip(class_first_sup(class, cols) + 1),
            cols,
            false,
        )
    } else {
        class
    }
}

/// The staged tuple: the first supported member, then the pulled members; the
/// filter will require them all equal under null-equal comparison.
pub open spec fn class_tuple(class: Seq<ScalarExpr>, cols: Seq<usize>) -> Seq<ScalarExpr> {
    seq![class[class_first_sup(class, cols)]] + class_pulled(class, cols)
}

/// Extraction applied to every class; classes left with at most one member
/// are discarded.
pub open spec fn classes_remaining(classes: Seq<Seq<ScalarExpr>>, cols: Seq<usize>) -> Seq<
    Seq<ScalarExpr>,
>
    decreases classes.len(),
{
    if classes.len() == 0 {
        Seq::empty()
    } else {
        let init = classes_remaining(classes.drop_last(), cols);
        let r = class_remaining(classes.last(), cols);
        if r.len() > 1 {
            init.push(r)
        } else {
            init
        }
    }
}

/// The staged tuples of every class that yielded at least one pulled member.
pub open spec fn classes_ready(classes: Seq<Seq<ScalarExpr>>, cols: Seq<usize>) -> Seq<
    Seq<ScalarExpr>,
>
    decreases classes.len(),
{
    if classes.len() == 0 {
        Seq::empty()
    } else {
        let init = classes_ready(classes.drop_last(), cols);
        if class_pulled(classes.last(), cols).len() > 0 {
            init.push(class_tuple(classes.last(), cols))
        } else {
            init
        }
    }
}

/// Clones a list of expressions.
pub fn clone_exprs(v: &Vec<ScalarExpr>) -> (r: Vec<ScalarExpr>)
    ensures
        r@ == v@,
{
    let mut out: Vec<ScalarExpr> = Vec::new();
    let mut i: usize = 0;
    while i < v.len()
        invariant
            i <= v@.len(),
            out@ == v@.take(i as int),
        decreases v@.len() - i,
    {
        out.push(v[i].clone());
        proof {
            assert(v@.take(i as int).push(v@[i as int]) =~= v@.take(i + 1));
        }
        i += 1;
    }
    proof {
        assert(v@.take(v@.len() as int) =~= v@);
    }
    out
}

/// Clones a list of equivalence classes.
pub fn clone_classes(v: &Vec<Vec<ScalarExpr>>) -> (r: Vec<Vec<ScalarExpr>>)
    ensures
        classes_view(r@) == classes_view(v@),
        r@.len() == v@.len(),
        forall|j: int| 0 <= j < v@.len() ==> #[trigger] r@[j]@ == v@[j]@,
{
    let mut out: Vec<Vec<ScalarExpr>> = Vec::new();
    let mut i: usize = 0;
    while i < v.len()
        invariant
            i <= v@.len(),
            out@.len() == i,
            forall|j: int| 0 <= j < i ==> #[trigger] out@[j]@ == v@[j]@,
        decreases v@.len() - i,
    {
        out.push(clone_exprs(&v[i]));
        i += 1;
    }
    proof {
        assert(classes_view(out@) =~= classes_view(v@));
    }
    out
}

/// Splits one class into its remainder and, when at least two supported
/// members exist, the staged tuple.
fn process_class(class: &Vec<ScalarExpr>, cols: &Vec<usize>) -> (r: (
    Vec<ScalarExpr>,
    Option<Vec<ScalarExpr>>,
))
    ensures
        r.0@ == class_remaining(class@, cols@),
        (match r.1 {
            Some(t) => class_pulled(class@, cols@).len() > 0 && t@ == class_tuple(class@, cols@),
            None => class_pulled(class@, cols@).len() == 0,
        }),
{
    let found = first_supported_in(class, cols);
    match found {
        None => {
            proof {
                if has_match(class@, sup_pred(cols@)) {
                    let j = choose|j: int|
                        0 <= j < class@.len() && #[trigger] sup_pred(cols@)(class@[j]);
                    assert(false);
                }
            }
            (clone_exprs(class), None)
        }
        Some(p) => {
            let n = class.len();
            assert(p < n);
            proof {
                assert(sup_pred(cols@)(class@[p as int]));
                assert forall|j: int| 0 <= j < p implies !sup_pred(cols@)(class@[j]) by {}
                lemma_first_where_unique(class@, sup_pred(cols@), p as int);
                assert(has_match(class@, sup_pred(cols@)));
            }
            let mut pulled: Vec<ScalarExpr> = Vec::new();
            let mut kept_tail: Vec<ScalarExpr> = Vec::new();
            proof {
                assert(class@.subrange(p + 1, p + 1) =~= Seq::<ScalarExpr>::empty());
            }
            let mut j: usize = p + 1;
            while j < class.len()
                invariant
                    p < j <= class@.len(),
                    n == class@.len(),
                    pulled@ == sup_filter(class@.subrange(p + 1, j as int), cols@, true),
                    kept_tail@ == sup_filter(class@.subrange(p + 1, j as int), cols@, false),
                decreases class@.len() - j,
            {
                let e = class[j].clone();
                if is_supported(&e, cols) {
                    pulled.push(e);
                } else {
                    kept_tail.push(e);
                }
                proof {
                    assert(class@.subrange(p + 1, j + 1).drop_last() =~= class@.subrange(
                        p + 1,
                        j as int,
                    ));
                    assert(class@.subrange(p + 1, j + 1).last() == class@[j as int]);
                }
                j += 1;
            }
            proof {
                assert(class@.subrange(p + 1, class@.len() as int) =~= class@.skip(p + 1));
            }
            if pulled.len() == 0 {
                (clone_exprs(class), None)
            } else {
                let mut remaining: Vec<ScalarExpr> = Vec::new();
                let mut k: usize = 0;
                proof {
                    assert(class@.take(0) =~= Seq::<ScalarExpr>::empty());
                }
                while k < p + 1
                    invariant
                        k <= p + 1,
                        p < n,
                        n == class@.len(),
                        remaining@ == class@.take(k as int),
                    decreases p + 1 - k,
                {
                    remaining.push(class[k].clone());
                    proof {
                        assert(class@.take(k as int).push(class@[k as int]) =~= class@.take(
                            k + 1,
                        ));
                    }
                    k += 1;
                }
                let mut kt = kept_tail;
                remaining.append(&mut kt);
                let mut tuple: Vec<ScalarExpr> = Vec::new();
                tuple.push(class[p].clone());
                let mut pl = pulled;
                tuple.append(&mut pl);
                proof {
                    assert(tuple@ =~= seq![class@[p as int]] + sup_filter(
                        class@.skip(p + 1),
                        cols@,
                        true,
                    ));
                }
                (remaining, Some(tuple))
            }
        }
    }
}

/// Extraction applied to every residual class: pulled tuples come out, and
/// classes left with at most one member are dropped.
pub fn extract_equivalences(cols: &Vec<usize>, equivalences: &mut Vec<Vec<ScalarExpr>>) -> (ready:
    Vec<Vec<ScalarExpr>>)
    ensures
        classes_view(final(equivalences)@) == classes_remaining(
            classes_view(old(equivalences)@),
            cols@,
        ),
        classes_view(ready@) == classes_ready(classes_view(old(equivalences)@), cols@),
{
    let ghost cv = classes_view(old(equivalences)@);
    let mut out: Vec<Vec<ScalarExpr>> = Vec::new();
    let mut ready: Vec<Vec<ScalarExpr>> = Vec::new();
    proof {
        assert(cv.take(0) =~= Seq::<Seq<ScalarExpr>>::empty());
    }
    let mut i: usize = 0;
    while i < equivalences.len()
        invariant
            i <= equivalences@.len(),
            equivalences@ == old(equivalences)@,
            cv == classes_view(equivalences@),
            cv.len() == equivalences@.len(),
            forall|j: int| 0 <= j < equivalences@.len() ==> cv[j] == equivalences@[j]@,
            classes_view(out@) == classes_remaining(cv.take(i as int), cols@),
            classes_view(ready@) == classes_ready(cv.take(i as int), cols@),
        decreases equivalences@.len() - i,
    {
        let (remaining, tuple) = process_class(&equivalences[i], cols);
        proof {
            assert(cv.take(i + 1).drop_last() =~= cv.take(i as int));
            assert(cv.take(i + 1).last() == cv[i as int]);
        }
        if remaining.len() > 1 {
            let ghost before = classes_view(out@);
            out.push(remaining);
            proof {
                assert(classes_view(out@) =~= before.push(class_remaining(cv[i as int], cols@)));
            }
        }
        match tuple {
            Some(t) => {
                let ghost before = classes_view(ready@);
                ready.push(t);
                proof {
                    assert(classes_view(ready@) =~= before.push(class_tuple(cv[i as int], cols@)));
                }
            }
            None => {}
        }
        i += 1;
    }
    proof {
        assert(cv.take(cv.len() as int) =~= cv);
    }
    *equivalences = out;
    ready
}

// ------------------------------------------------------------------
// Rewriting ready constraints into working-row coordinates
// ------------------------------------------------------------------

/// Rewrites every expression's column references to positions in `cols`.
pub fn rewrite_all(exprs: &Vec<ScalarExpr>, cols: &Vec<usize>) -> (r: Vec<ScalarExpr>)
    requires
        forall|j: int| 0 <= j < exprs@.len() ==> supported(#[trigger] exprs@[j], cols@),
    ensures
        r@ == exprs@.map_values(|e: ScalarExpr| rewrite_spec(e, cols@)),
{
    let mut out: Vec<ScalarExpr> = Vec::new();
    let mut i: usize = 0;
    while i < exprs.len()
        invariant
            i <= exprs@.len(),
            forall|j: int| 0 <= j < exprs@.len() ==> supported(#[trigger] exprs@[j], cols@),
            out@.len() == i,
            forall|j: int| 0 <= j < i ==> out@[j] == rewrite_spec(#[trigger] exprs@[j], cols@),
        decreases exprs@.len() - i,
    {
        out.push(rewrite_columns(&exprs[i], cols));
        i += 1;
    }
    proof {
        assert(out@ =~= exprs@.map_values(|e: ScalarExpr| rewrite_spec(e, cols@)));
    }
    out
}

/// Every member of every staged tuple is supported by `cols`.
pub proof fn lemma_classes_ready_supported(classes: Seq<Seq<ScalarExpr>>, cols: Seq<usize>)
    ensures
        forall|j: int, k: int|
            0 <= j < classes_ready(classes, cols).len() && 0 <= k < classes_ready(classes, cols)[j].len()
                ==> supported(#[trigger] classes_ready(classes, cols)[j][k], cols),
    decreases classes.len(),
{
    if classes.len() == 0 {
    } else {
        lemma_classes_ready_supported(classes.drop_last(), cols);
        let init = classes_ready(classes.drop_last(), cols);
        let c = classes.last();
        if class_pulled(c, cols).len() > 0 {
            lemma_first_where(c, sup_pred(cols));
            assert(sup_pred(cols)(c[class_first_sup(c, cols)]));
            let t = class_tuple(c, cols);
            assert forall|k: int| 0 <= k < t.len() implies supported(t[k], cols) by {
                if k == 0 {
                    assert(t[0] == c[class_first_sup(c, cols)]);
                } else {
                    assert(t[k] == class_pulled(c, cols)[k - 1]);
                    assert(class_pulled(c, cols).contains(class_pulled(c, cols)[k - 1]));
                    lemma_sup_filter_membership(
                        c.skip(class_first_sup(c, cols) + 1),
                        cols,
                        true,
                        class_pulled(c, cols)[k - 1],
                    );
                }
            }
            assert forall|j: int, k: int|
                0 <= j < init.push(t).len() && 0 <= k < init.push(t)[j].len() implies supported(
                init.push(t)[j][k],
                cols,
            ) by {
                if j < init.len() {
                    assert(init.push(t)[j] == init[j]);
                } else {
                    assert(init.push(t)[j] == t);
                }
            }
        }
    }
}

/// Every staged predicate references only working-row positions.
pub proof fn lemma_ready_preds_wf(preds: Seq<ScalarExpr>, cols: Seq<usize>)
    ensures
        forall|j: int| 0 <= j < ready_preds_spec(preds, cols).len() ==> expr_wf(
            #[trigger] ready_preds_spec(preds, cols)[j],
            cols.len() as int,
        ),
{
    let sf = sup_filter(preds, cols, true);
    assert forall|j: int| 0 <= j < ready_preds_spec(preds, cols).len() implies expr_wf(
        #[trigger] ready_preds_spec(preds, cols)[j],
        cols.len() as int,
    ) by {
        assert(ready_preds_spec(preds, cols)[j] == rewrite_spec(sf[j], cols));
        assert(sf.contains(sf[j]));
        lemma_sup_filter_membership(preds, cols, true, sf[j]);
        crate::expr::lemma_rewrite_wf(sf[j], cols);
    }
}

/// Every staged tuple holds at least two members.
pub proof fn lemma_classes_ready_len(classes: Seq<Seq<ScalarExpr>>, cols: Seq<usize>)
    ensures
        forall|j: int| 0 <= j < classes_ready(classes, cols).len() ==> (#[trigger] classes_ready(
            classes,
            cols,
        )[j]).len() >= 2,
    decreases classes.len(),
{
    if classes.len() > 0 {
        lemma_classes_ready_len(classes.drop_last(), cols);
        let init = classes_ready(classes.drop_last(), cols);
        let c = classes.last();
        if class_pulled(c, cols).len() > 0 {
            let t = class_tuple(c, cols);
            assert(t.len() >= 2);
            assert forall|j: int| 0 <= j < init.push(t).len() implies (#[trigger] init.push(
                t,
            )[j]).len() >= 2 by {
                if j < init.len() {
                    assert(init.push(t)[j] == init[j]);
                }
            }
        }
    }
}

/// Every staged tuple is nonempty and references only working-row
/// positions.
pub proof fn lemma_ready_equivs_wf(classes: Seq<Seq<ScalarExpr>>, cols: Seq<usize>)
    ensures
        forall|j: int| 0 <= j < ready_equivs_spec(classes, cols).len() ==> (
        #[trigger] ready_equivs_spec(classes, cols)[j]).len() >= 1,
        forall|j: int, k: int|
            0 <= j < ready_equivs_spec(classes, cols).len() && 0 <= k < ready_equivs_spec(
                classes,
                cols,
            )[j].len() ==> expr_wf(
                #[trigger] ready_equivs_spec(classes, cols)[j][k],
                cols.len() as int,
            ),
{
    lemma_classes_ready_supported(classes, cols);
    lemma_classes_ready_len(classes, cols);
    let cr = classes_ready(classes, cols);
    let re = ready_equivs_spec(classes, cols);
    assert forall|j: int, k: int|
        0 <= j < re.len() && 0 <= k < re[j].len() implies expr_wf(
        #[trigger] re[j][k],
        cols.len() as int,
    ) by {
        assert(re[j] == cr[j].map_values(|e: ScalarExpr| rewrite_spec(e, cols)));
        assert(re[j][k] == rewrite_spec(cr[j][k], cols));
        assert(supported(cr[j][k], cols));
        crate::expr::lemma_rewrite_wf(cr[j][k], cols);
    }
    assert forall|j: int| 0 <= j < re.len() implies (#[trigger] re[j]).len() >= 1 by {
        assert(re[j] == cr[j].map_values(|e: ScalarExpr| rewrite_spec(e, cols)));
    }
}

/// One staged row-level filter: the ready predicates and ready equivalence
/// tuples, in working-row coordinates.
#[derive(Debug)]
pub struct FilterStage {
    pub predicates: Vec<ScalarExpr>,
    pub equivalences: Vec<Vec<ScalarExpr>>,
}

/// The predicates of a filter stage built over `cols` from `preds`.
pub open spec fn ready_preds_spec(preds: Seq<ScalarExpr>, cols: Seq<usize>) -> Seq<ScalarExpr> {
    sup_filter(preds, cols, true).map_values(|e: ScalarExpr| rewrite_spec(e, cols))
}

/// The equivalence tuples of a filter stage built over `cols` from `classes`.
pub open spec fn ready_equivs_spec(classes: Seq<Seq<ScalarExpr>>, cols: Seq<usize>) -> Seq<
    Seq<ScalarExpr>,
> {
    classes_ready(classes, cols).map_values(
        |c: Seq<ScalarExpr>| c.map_values(|e: ScalarExpr| rewrite_spec(e, cols)),
    )
}

/// Extracts every predicate and equivalence fully supported by
/// `source_columns`, leaves the residue behind, and stages the ready
/// constraints — rewritten into working-row positions — as a filter, if any
/// are ready.
pub fn build_filter(
    source_columns: &Vec<usize>,
    predicates: &mut Vec<ScalarExpr>,
    equivalences: &mut Vec<Vec<ScalarExpr>>,
) -> (r: Option<FilterStage>)
    ensures
        final(predicates)@ == sup_filter(old(predicates)@, source_columns@, false),
        classes_view(final(equivalences)@) == classes_remaining(
            classes_view(old(equivalences)@),
            source_columns@,
        ),
        (match r {
            None => {
                &&& ready_preds_spec(old(predicates)@, source_columns@).len() == 0
                &&& ready_equivs_spec(classes_view(old(equivalences)@), source_columns@).len()
                    == 0
            },
            Some(stage) => {
                &&& stage.predicates@ == ready_preds_spec(old(predicates)@, source_columns@)
                &&& classes_view(stage.equivalences@) == ready_equivs_spec(
                    classes_view(old(equivalences)@),
                    source_columns@,
                )
                &&& (stage.predicates@.len() > 0 || stage.equivalences@.len() > 0)
            },
        }),
{
    let ready_p = extract_predicates(source_columns, predicates);
    let ready_e = extract_equivalences(source_columns, equivalences);
    if ready_p.len() == 0 && ready_e.len() == 0 {
        proof {
            assert(ready_preds_spec(old(predicates)@, source_columns@).len() == 0);
            assert(ready_equivs_spec(classes_view(old(equivalences)@), source_columns@).len()
                == 0);
        }
        return None;
    }
    proof {
        assert forall|j: int| 0 <= j < ready_p@.len() implies supported(
            #[trigger] ready_p@[j],
            source_columns@,
        ) by {
            assert(ready_p@.contains(ready_p@[j]));
            lemma_sup_filter_membership(old(predicates)@, source_columns@, true, ready_p@[j]);
        }
    }
    let rp = rewrite_all(&ready_p, source_columns);
    let ghost re_spec = classes_ready(classes_view(old(equivalences)@), source_columns@);
    proof {
        lemma_classes_ready_supported(classes_view(old(equivalences)@), source_columns@);
    }
    let mut re: Vec<Vec<ScalarExpr>> = Vec::new();
    let mut i: usize = 0;
    while i < ready_e.len()
        invariant
            i <= ready_e@.len(),
            classes_view(ready_e@) == re_spec,
            ready_e@.len() == re_spec.len(),
            forall|j: int| 0 <= j < ready_e@.len() ==> #[trigger] ready_e@[j]@ == re_spec[j],
            forall|j: int, k: int|
                0 <= j < re_spec.len() && 0 <= k < re_spec[j].len() ==> supported(
                    #[trigger] re_spec[j][k],
                    source_columns@,
                ),
            re@.len() == i,
            forall|j: int| 0 <= j < i ==> #[trigger] re@[j]@ == re_spec[j].map_values(
                |e: ScalarExpr| rewrite_spec(e, source_columns@),
            ),
        decreases ready_e@.len() - i,
    {
        proof {
            assert(ready_e@[i as int]@ == re_spec[i as int]);
        }
        let t = rewrite_all(&ready_e[i], source_columns);
        re.push(t);
        i += 1;
    }
    proof {
        assert(classes_view(re@) =~= ready_equivs_spec(
            classes_view(old(equivalences)@),
            source_columns@,
        ));
    }
    Some(FilterStage { predicates: rp, equivalences: re })
}

// ------------------------------------------------------------------
// Row-level semantics of a staged filter
// ------------------------------------------------------------------

/// All expressions of the stage are within `arity`, and every tuple has at
/// least one member.
pub open spec fn filter_stage_wf(
    predicates: Seq<ScalarExpr>,
    equivalences: Seq<Seq<ScalarExpr>>,
    arity: int,
) -> bool {
    &&& forall|j: int| 0 <= j < predicates.len() ==> expr_wf(#[trigger] predicates[j], arity)
    &&& forall|j: int| 0 <= j < equivalences.len() ==> (#[trigger] equivalences[j]).len() >= 1
    &&& forall|j: int, k: int|
        0 <= j < equivalences.len() && 0 <= k < equivalences[j].len() ==> expr_wf(
            #[trigger] equivalences[j][k],
            arity,
        )
}

/// Whether every predicate evaluates to `True` on `row`; the first
/// evaluation error wins, and the first non-`True` result drops the row.
pub open spec fn preds_pass(preds: Seq<ScalarExpr>, row: Seq<Datum>) -> Result<bool, EvalError>
    decreases preds.len(),
{
    if preds.len() == 0 {
        Ok(true)
    } else {
        match eval_spec(preds[0], row) {
            Err(e) => Err(e),
            Ok(d) => {
                if d != Datum::True {
                    Ok(false)
                } else {
                    preds_pass(preds.drop_first(), row)
                }
            }
        }
    }
}

/// Whether every expression evaluates to `val` on `row` — datum equality,
/// under which `Null` equals `Null`.
pub open spec fn rest_agree(exprs: Seq<ScalarExpr>, row: Seq<Datum>, val: Datum) -> Result<
    bool,
    EvalError,
>
    decreases exprs.len(),
{
    if exprs.len() == 0 {
        Ok(true)
    } else {
        match eval_spec(exprs[0], row) {
            Err(e) => Err(e),
            Ok(d) => {
                if d != val {
                    Ok(false)
                } else {
                    rest_agree(exprs.drop_first(), row, val)
                }
            }
        }
    }
}

/// Whether all members of one equivalence tuple evaluate to one value.
pub open spec fn tuple_agrees(exprs: Seq<ScalarExpr>, row: Seq<Datum>) -> Result<bool, EvalError> {
    match eval_spec(exprs[0], row) {
        Err(e) => Err(e),
        Ok(val) => rest_agree(exprs.drop_first(), row, val),
    }
}

/// Whether every equivalence tuple agrees on `row`.
pub open spec fn equivs_pass(tuples: Seq<Seq<ScalarExpr>>, row: Seq<Datum>) -> Result<
    bool,
    EvalError,
>
    decreases tuples.len(),
{
    if tuples.len() == 0 {
        Ok(true)
    } else {
        match tuple_agrees(tuples[0], row) {
            Err(e) => Err(e),
            Ok(b) => {
                if !b {
                    Ok(false)
                } else {
                    equivs_pass(tuples.drop_first(), row)
                }
            }
        }
    }
}

/// Whether `row` passes the staged filter: all predicates `True`, then all
/// equivalence tuples in agreement.
pub open spec fn filter_row_spec(
    predicates: Seq<ScalarExpr>,
    equivalences: Seq<Seq<ScalarExpr>>,
    row: Seq<Datum>,
) -> Result<bool, EvalError> {
    match preds_pass(predicates, row) {
        Err(e) => Err(e),
        Ok(b) => {
            if !b {
                Ok(false)
            } else {
                equivs_pass(equivalences, row)
            }
        }
    }
}

/// Evaluates the staged filter on one row. `Ok(true)` keeps the row,
/// `Ok(false)` drops it, and `Err` shifts it into the error stream.
pub fn filter_row(stage: &FilterStage, row: &Row) -> (r: Result<bool, EvalError>)
    requires
        filter_stage_wf(stage.predicates@, classes_view(stage.equivalences@), row@.len() as int),
    ensures
        r == filter_row_spec(stage.predicates@, classes_view(stage.equivalences@), row@),
{
    let ghost preds = stage.predicates@;
    let ghost tuples = classes_view(stage.equivalences@);
    let mut i: usize = 0;
    proof {
        assert(preds.skip(0) =~= preds);
    }
    while i < stage.predicates.len()
        invariant
            i <= preds.len(),
            preds == stage.predicates@,
            tuples == classes_view(stage.equivalences@),
            filter_stage_wf(preds, tuples, row@.len() as int),
            preds_pass(preds, row@) == preds_pass(preds.skip(i as int), row@),
        decreases preds.len() - i,
    {
        proof {
            assert(preds.skip(i as int)[0] == preds[i as int]);
            assert(preds.skip(i as int).drop_first() =~= preds.skip(i + 1));
        }
        match eval(&stage.predicates[i], row) {
            Err(e) => {
                return Err(e);
            }
            Ok(d) => {
                let is_true = match d {
                    Datum::True => true,
                    _ => false,
                };
                if !is_true {
                    return Ok(false);
                }
            }
        }
        i += 1;
    }
    proof {
        assert(preds.skip(preds.len() as int).len() == 0);
    }
    let mut j: usize = 0;
    proof {
        assert(tuples.skip(0) =~= tuples);
    }
    while j < stage.equivalences.len()
        invariant
            j <= tuples.len(),
            preds == stage.predicates@,
            tuples == classes_view(stage.equivalences@),
            tuples.len() == stage.equivalences@.len(),
            forall|t: int| 0 <= t < tuples.len() ==> #[trigger] tuples[t]
                == stage.equivalences@[t]@,
            filter_stage_wf(preds, tuples, row@.len() as int),
            preds_pass(preds, row@) == Ok::<bool, EvalError>(true),
            equivs_pass(tuples, row@) == equivs_pass(tuples.skip(j as int), row@),
        decreases tuples.len() - j,
    {
        proof {
            assert(tuples.skip(j as int)[0] == tuples[j as int]);
            assert(tuples.skip(j as int).drop_first() =~= tuples.skip(j + 1));
        }
        let exprs = &stage.equivalences[j];
        let val = match eval(&exprs[0], row) {
            Err(e) => {
                return Err(e);
            }
            Ok(val) => val,
        };
        let ghost tv = tuples[j as int];
        let mut k: usize = 1;
        proof {
            assert(tv.drop_first().skip(0) =~= tv.drop_first());
            assert(tv.drop_first() =~= tv.skip(1));
        }
        while k < exprs.len()
            invariant
                1 <= k <= tv.len(),
                tv == exprs@,
                tv.len() >= 1,
                preds == stage.predicates@,
                tuples == classes_view(stage.equivalences@),
                j < tuples.len(),
                tv == tuples[j as int],
                preds_pass(preds, row@) == Ok::<bool, EvalError>(true),
                equivs_pass(tuples, row@) == equivs_pass(tuples.skip(j as int), row@),
                forall|t: int| 0 <= t < tv.len() ==> expr_wf(#[trigger] tv[t], row@.len() as int),
                eval_spec(tv[0], row@) == Ok::<Datum, EvalError>(val),
                rest_agree(tv.drop_first(), row@, val) == rest_agree(
                    tv.skip(k as int),
                    row@,
                    val,
                ),
            decreases tv.len() - k,
        {
            proof {
                assert(tv.skip(k as int)[0] == tv[k as int]);
                assert(tv.skip(k as int).drop_first() =~= tv.skip(k + 1));
                assert(tuples.skip(j as int)[0] == tv);
            }
            match eval(&exprs[k], row) {
                Err(e) => {
                    proof {
                        assert(rest_agree(tv.drop_first(), row@, val) == Err::<bool, EvalError>(
                            e,
                        ));
                        assert(tuple_agrees(tv, row@) == Err::<bool, EvalError>(e));
                        assert(equivs_pass(tuples.skip(j as int), row@) == Err::<
                            bool,
                            EvalError,
                        >(e));
                    }
                    return Err(e);
                }
                Ok(d) => {
                    if d != val {
                        proof {
                            assert(rest_agree(tv.drop_first(), row@, val) == Ok::<
                                bool,
                                EvalError,
                            >(false));
                            assert(tuple_agrees(tv, row@) == Ok::<bool, EvalError>(false));
                            assert(equivs_pass(tuples.skip(j as int), row@) == Ok::<
                                bool,
                                EvalError,
                            >(false));
                        }
                        return Ok(false);
                    }
                }
            }
            k += 1;
        }
        proof {
            assert(tv.skip(tv.len() as int).len() == 0);
            assert(tuple_agrees(tv, row@) == Ok::<bool, EvalError>(true));
        }
        j += 1;
    }
    proof {
        assert(tuples.skip(tuples.len() as int).len() == 0);
    }
    Ok(true)
}

// ------------------------------------------------------------------
// Laws
// ------------------------------------------------------------------

/// Null-equal semantics. A staged equivalence tuple of two column references
/// agrees when both columns hold `Null`, so the physical join matches
/// null-keyed rows; the SQL equality function on the same two columns yields
/// `Null` instead of `True`, so a predicate filter would drop that row.
pub proof fn lemma_null_equal_semantics(row: Seq<Datum>, a: usize, b: usize)
    requires
        (a as int) < row.len(),
        (b as int) < row.len(),
        row[a as int] is Null,
        row[b as int] is Null,
    ensures
        tuple_agrees(seq![ScalarExpr::Column(a), ScalarExpr::Column(b)], row) == Ok::<
            bool,
            EvalError,
        >(true),
        apply_binary(BinaryFunc::Eq, row[a as int], row[b as int]) == Ok::<Datum, EvalError>(
            Datum::Null,
        ),
{
    let s = seq![ScalarExpr::Column(a), ScalarExpr::Column(b)];
    assert(eval_spec(s[0], row) == Ok::<Datum, EvalError>(Datum::Null));
    assert(s.drop_first() =~= seq![ScalarExpr::Column(b)]);
    let s2 = seq![ScalarExpr::Column(b)];
    assert(eval_spec(s2[0], row) == Ok::<Datum, EvalError>(Datum::Null));
    assert(s2.drop_first() =~= Seq::<ScalarExpr>::empty());
    assert(rest_agree(Seq::<ScalarExpr>::empty(), row, Datum::Null) == Ok::<bool, EvalError>(
        true,
    ));
    assert(rest_agree(s2, row, Datum::Null) == Ok::<bool, EvalError>(true));
}

/// An equivalence class whose members are all bound up front is consumed
/// whole by the filter: every member but the first feeds the staged tuple,
/// the remainder has a single member — and is then discarded, so no lookup
/// key is ever drawn from the class.
pub proof fn lemma_fully_bound_class_consumed(class: Seq<ScalarExpr>, cols: Seq<usize>)
    requires
        class.len() >= 2,
        forall|i: int| 0 <= i < class.len() ==> supported(#[trigger] class[i], cols),
    ensures
        class_pulled(class, cols) == class.drop_first(),
        class_tuple(class, cols) == seq![class[0]] + class.drop_first(),
        class_remaining(class, cols).len() == 1,
    decreases class.len(),
{
    assert(sup_pred(cols)(class[0]));
    assert(has_match(class, sup_pred(cols)));
    lemma_first_where_unique(class, sup_pred(cols), 0);
    assert(class_first_sup(class, cols) == 0);
    assert(forall|i: int| 0 <= i < class.skip(1).len() ==> #[trigger] class.skip(1)[i]
        == class[i + 1]);
    lemma_sup_filter_all(class.skip(1), cols);
    assert(class.skip(1) =~= class.drop_first());
    assert(class_pulled(class, cols) == class.drop_first());
    assert(class_remaining(class, cols) =~= class.take(1));
}

} // verus!

