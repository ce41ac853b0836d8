//! The static mapping between each input's local columns and global columns
//! (positions in the concatenation of all inputs' columns).

use vstd::prelude::*;

use crate::expr::{
    expr_eq, expr_wf, first_pos, is_supported, rewrite_columns, rewrite_spec, shift_columns,
    shift_spec, supported, ScalarExpr,
};
use crate::find::{first_where, has_match, lemma_first_where_unique};

verus! {

/// The number of global columns before input `i`: the sum of the arities of
/// inputs `0 .. i`.
pub open spec fn offset_of(arities: Seq<usize>, i: int) -> int
    decreases i,
{
    if i <= 0 {
        0
    } else {
        offset_of(arities, i - 1) + arities[i - 1]
    }
}

pub proof fn lemma_offset_mono(arities: Seq<usize>, i: int, j: int)
    requires
        0 <= i <= j <= arities.len(),
    ensures
        offset_of(arities, i) <= offset_of(arities, j),
    decreases j - i,
{
    if i < j {
        lemma_offset_mono(arities, i, j - 1);
    }
}

/// The global columns of input `i`, as a sequence of indices.
pub open spec fn global_cols_spec(arities: Seq<usize>, i: int) -> Seq<usize> {
    Seq::new(arities[i] as nat, |k: int| (offset_of(arities, i) + k) as usize)
}

/// Every global column index lies in the range of exactly one input. This
/// names that input for a column `c`.
pub open spec fn input_of_col(arities: Seq<usize>, c: int) -> int
    decreases arities.len(),
{
    if arities.len() == 0 {
        0
    } else if c < offset_of(arities, arities.len() - 1) {
        input_of_col(arities.drop_last(), c)
    } else {
        arities.len() - 1
    }
}

pub proof fn lemma_offset_drop_last(arities: Seq<usize>, i: int)
    requires
        0 <= i < arities.len(),
    ensures
        offset_of(arities.drop_last(), i) == offset_of(arities, i),
    decreases i,
{
    if i > 0 {
        lemma_offset_drop_last(arities, i - 1);
    }
}

/// A global column below the total lies inside the column range of the input
/// that `input_of_col` names.
pub proof fn lemma_input_of_col(arities: Seq<usize>, c: int)
    requires
        0 <= c < offset_of(arities, arities.len() as int),
    ensures
        ({
            let i = input_of_col(arities, c);
            &&& 0 <= i < arities.len()
            &&& offset_of(arities, i) <= c < offset_of(arities, i) + arities[i]
        }),
    decreases arities.len(),
{
    let n = arities.len() as int;
    if n == 0 {
        assert(false);
    } else if c < offset_of(arities, n - 1) {
        lemma_offset_drop_last(arities, n - 1);
        assert(arities.drop_last().len() as int == n - 1);
        lemma_input_of_col(arities.drop_last(), c);
        let i = input_of_col(arities.drop_last(), c);
        lemma_offset_drop_last(arities, i);
    } else {
        assert(offset_of(arities, n) == offset_of(arities, n - 1) + arities[n - 1]);
    }
}

/// The static input-column mapper: it records each input's arity.
#[derive(Debug)]
pub struct JoinInputMapper {
    pub arities: Vec<usize>,
}

impl JoinInputMapper {
    /// All global column indices fit in `usize`.
    pub open spec fn wf(&self) -> bool {
        offset_of(self.arities@, self.arities@.len() as int) <= usize::MAX
    }

    pub open spec fn total_spec(&self) -> int {
        offset_of(self.arities@, self.arities@.len() as int)
    }

    pub fn new(arities: Vec<usize>) -> (r: JoinInputMapper)
        requires
            offset_of(arities@, arities@.len() as int) <= usize::MAX,
        ensures
            r.arities@ == arities@,
            r.wf(),
    {
        JoinInputMapper { arities }
    }

    /// The number of global columns before input `i`.
    pub fn input_offset(&self, i: usize) -> (r: usize)
        requires
            self.wf(),
            i <= self.arities@.len(),
        ensures
            r == offset_of(self.arities@, i as int),
    {
        let mut sum: usize = 0;
        let mut k: usize = 0;
        while k < i
            invariant
                k <= i <= self.arities@.len(),
                self.wf(),
                sum == offset_of(self.arities@, k as int),
            decreases i - k,
        {
            proof {
                lemma_offset_mono(self.arities@, k + 1, self.arities@.len() as int);
            }
            sum = sum + self.arities[k];
            k += 1;
        }
        sum
    }

    /// The total number of global columns.
    pub fn total_columns(&self) -> (r: usize)
        requires
            self.wf(),
        ensures
            r == self.total_spec(),
    {
        self.input_offset(self.arities.len())
    }

    /// The global columns of input `i`, in local order.
    pub fn global_columns(&self, i: usize) -> (r: Vec<usize>)
        requires
            self.wf(),
            i < self.arities@.len(),
        ensures
            r@ == global_cols_spec(self.arities@, i as int),
    {
        let offset = self.input_offset(i);
        let arity = self.arities[i];
        proof {
            lemma_offset_mono(self.arities@, i + 1, self.arities@.len() as int);
        }
        let mut cols: Vec<usize> = Vec::new();
        let mut k: usize = 0;
        while k < arity
            invariant
                k <= arity,
                arity == self.arities@[i as int],
                offset == offset_of(self.arities@, i as int),
                offset + arity <= usize::MAX,
                cols@ == global_cols_spec(self.arities@, i as int).take(k as int),
            decreases arity - k,
        {
            cols.push(offset + k);
            proof {
                let g = global_cols_spec(self.arities@, i as int);
                assert(g.take(k as int).push(g[k as int]) =~= g.take(k + 1 as int));
            }
            k += 1;
        }
        proof {
            let g = global_cols_spec(self.arities@, i as int);
            assert(g.take(g.len() as int) =~= g);
        }
        cols
    }

    /// Rebases `e` from the local columns of input `other` to global columns.
    pub fn map_expr_to_global(&self, e: &ScalarExpr, other: usize) -> (r: ScalarExpr)
        requires
            self.wf(),
            other < self.arities@.len(),
            expr_wf(*e, self.arities@[other as int] as int),
        ensures
            r == shift_spec(*e, offset_of(self.arities@, other as int)),
    {
        let offset = self.input_offset(other);
        let bound = self.arities[other];
        proof {
            lemma_offset_mono(self.arities@, other + 1, self.arities@.len() as int);
        }
        shift_columns(e, offset, bound)
    }
}

/// The bound expression the renderer picks for a key expression `e`: `e`
/// itself when its columns are already bound, else the first supported member
/// of the first equivalence class that contains `e`.
pub open spec fn find_bound_spec(
    e: ScalarExpr,
    cols: Seq<usize>,
    classes: Seq<Seq<ScalarExpr>>,
) -> Option<ScalarExpr>
    decreases classes.len(),
{
    if supported(e, cols) {
        Some(e)
    } else if classes.len() == 0 {
        None
    } else if classes[0].contains(e) && has_match(classes[0], sup_pred(cols)) {
        Some(classes[0][first_where(classes[0], sup_pred(cols))])
    } else {
        find_bound_spec(e, cols, classes.drop_first())
    }
}

/// The predicate "is supported by `cols`".
pub open spec fn sup_pred(cols: Seq<usize>) -> spec_fn(ScalarExpr) -> bool {
    |x: ScalarExpr| supported(x, cols)
}

/// A found bound expression is supported by `cols`.
pub proof fn lemma_find_bound_supported(
    e: ScalarExpr,
    cols: Seq<usize>,
    classes: Seq<Seq<ScalarExpr>>,
)
    ensures
        find_bound_spec(e, cols, classes) matches Some(b) ==> supported(b, cols),
    decreases classes.len(),
{
    if supported(e, cols) {
    } else if classes.len() == 0 {
    } else if classes[0].contains(e) && has_match(classes[0], sup_pred(cols)) {
        crate::find::lemma_first_where(classes[0], sup_pred(cols));
        assert(sup_pred(cols)(classes[0][first_where(classes[0], sup_pred(cols))]));
    } else {
        lemma_find_bound_supported(e, cols, classes.drop_first());
    }
}

/// The view of a list of equivalence classes.
pub open spec fn classes_view(v: Seq<Vec<ScalarExpr>>) -> Seq<Seq<ScalarExpr>> {
    v.map_values(|c: Vec<ScalarExpr>| c@)
}

/// Finds, among the equivalence classes, a bound equivalent of `e`: an
/// expression equal to `e` whose columns all lie in `cols`.
pub fn find_bound_expr(
    e: &ScalarExpr,
    cols: &Vec<usize>,
    equivalences: &Vec<Vec<ScalarExpr>>,
) -> (r: Option<ScalarExpr>)
    ensures
        r == find_bound_spec(*e, cols@, classes_view(equivalences@)),
{
    if is_supported(e, cols) {
        return Some(e.clone());
    }
    let ghost cv = classes_view(equivalences@);
    proof {
        assert(cv.skip(0) =~= cv);
    }
    let mut i: usize = 0;
    while i < equivalences.len()
        invariant
            i <= equivalences@.len(),
            cv == classes_view(equivalences@),
            cv.len() == equivalences@.len(),
            forall|j: int| 0 <= j < equivalences@.len() ==> cv[j] == equivalences@[j]@,
            !supported(*e, cols@),
            find_bound_spec(*e, cols@, cv) == find_bound_spec(*e, cols@, cv.skip(i as int)),
        decreases equivalences@.len() - i,
    {
        let class = &equivalences[i];
        proof {
            assert(cv.skip(i as int).len() > 0);
            assert(cv.skip(i as int)[0] == class@);
            assert(cv.skip(i as int).drop_first() =~= cv.skip(i + 1 as int));
        }
        if contains_in_class(class, e) {
            let found = first_supported_in(class, cols);
            match found {
                Some(k2) => {
                    proof {
                        assert(sup_pred(cols@)(class@[k2 as int]));
                        assert forall|j: int| 0 <= j < k2 implies !sup_pred(cols@)(
                            class@[j],
                        ) by {}
                        lemma_first_where_unique(class@, sup_pred(cols@), k2 as int);
                        assert(has_match(class@, sup_pred(cols@)));
                        assert(find_bound_spec(*e, cols@, cv.skip(i as int)) == Some(
                            class@[k2 as int],
                        ));
                    }
                    return Some(class[k2].clone());
                }
                None => {
                    proof {
                        if has_match(class@, sup_pred(cols@)) {
                            let j = choose|j: int|
                                0 <= j < class@.len() && #[trigger] sup_pred(cols@)(class@[j]);
                            assert(false);
                        }
                    }
                }
            }
        }
        i += 1;
    }
    proof {
        assert(cv.skip(cv.len() as int).len() == 0);
    }
    None
}

/// The index of the first member of `class` supported by `cols`, if any.
pub fn first_supported_in(class: &Vec<ScalarExpr>, cols: &Vec<usize>) -> (r: Option<usize>)
    ensures
        r matches Some(k) ==> {
            &&& 0 <= k < class@.len()
            &&& supported(class@[k as int], cols@)
            &&& forall|j: int| 0 <= j < k ==> !supported(class@[j], cols@)
        },
        r is None ==> forall|j: int| 0 <= j < class@.len() ==> !supported(class@[j], cols@),
{
    let mut k: usize = 0;
    while k < class.len()
        invariant
            k <= class@.len(),
            forall|j: int| 0 <= j < k ==> !supported(class@[j], cols@),
        decreases class@.len() - k,
    {
        if is_supported(&class[k], cols) {
            return Some(k);
        }
        k += 1;
    }
    None
}

/// Whether `class` holds an expression equal to `e` (helper over a borrowed class).
fn contains_in_class(class: &Vec<ScalarExpr>, e: &ScalarExpr) -> (r: bool)
    ensures
        r == class@.contains(*e),
{
    let mut i: usize = 0;
    while i < class.len()
        invariant
            i <= class@.len(),
            forall|j: int| 0 <= j < i ==> class@[j] != *e,
        decreases class@.len() - i,
    {
        if expr_eq(&class[i], e) {
            return true;
        }
        i += 1;
    }
    proof {
        if class@.contains(*e) {
            let j = choose|j: int| 0 <= j < class@.len() && class@[j] == *e;
            assert(false);
        }
    }
    false
}

} // verus!
