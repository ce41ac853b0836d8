//! Locating the first element of a sequence that satisfies a predicate.

use vstd::prelude::*;

verus! {

/// Whether some element of `s` satisfies `p`.
pub open spec fn has_match<A>(s: Seq<A>, p: spec_fn(A) -> bool) -> bool {
    exists|i: int| 0 <= i < s.len() && #[trigger] p(s[i])
}

/// The index of the first element of `s` satisfying `p`, or `s.len()` if none does.
pub open spec fn first_where<A>(s: Seq<A>, p: spec_fn(A) -> bool) -> int
    decreases s.len(),
{
    if s.len() == 0 {
        0
    } else if p(s[0]) {
        0
    } else {
        1 + first_where(s.drop_first(), p)
    }
}

/// `first_where` indeed names the first match when one exists, and `s.len()` otherwise.
pub proof fn lemma_first_where<A>(s: Seq<A>, p: spec_fn(A) -> bool)
    ensures
        has_match(s, p) ==> {
            &&& 0 <= first_where(s, p) < s.len()
            &&& p(s[first_where(s, p)])
            &&& forall|j: int| 0 <= j < first_where(s, p) ==> !p(s[j])
        },
        !has_match(s, p) ==> first_where(s, p) == s.len(),
    decreases s.len(),
{
    if s.len() == 0 {
    } else if p(s[0]) {
        assert(has_match(s, p));
    } else {
        lemma_first_where(s.drop_first(), p);
        assert(forall|j: int| 0 <= j < s.drop_first().len()
            ==> #[trigger] s.drop_first()[j] == s[j + 1]);
        if has_match(s, p) {
            let i = choose|i: int| 0 <= i < s.len() && #[trigger] p(s[i]);
            assert(s.drop_first()[i - 1] == s[i]);
            assert(has_match(s.drop_first(), p));
            let fw = first_where(s, p);
            assert(fw == 1 + first_where(s.drop_first(), p));
            assert(p(s.drop_first()[fw - 1]));
            assert(p(s[fw]));
            assert forall|j: int| 0 <= j < fw implies !p(s[j]) by {
                if j == 0 {
                } else {
                    assert(s.drop_first()[j - 1] == s[j]);
                    assert(!p(s.drop_first()[j - 1]));
                }
            }
        } else {
            if has_match(s.drop_first(), p) {
                let i = choose|i: int| 0 <= i < s.drop_first().len()
                    && #[trigger] p(s.drop_first()[i]);
                assert(p(s[i + 1]));
                assert(false);
            }
        }
    }
}

/// An index that satisfies `p`, with nothing satisfying `p` before it, is `first_where`.
pub proof fn lemma_first_where_unique<A>(s: Seq<A>, p: spec_fn(A) -> bool, i: int)
    requires
        0 <= i < s.len(),
        p(s[i]),
        forall|j: int| 0 <= j < i ==> !p(s[j]),
    ensures
        first_where(s, p) == i,
    decreases i,
{
    if i == 0 {
    } else {
        assert(!p(s[0]));
        assert(forall|j: int| 0 <= j < s.drop_first().len()
            ==> #[trigger] s.drop_first()[j] == s[j + 1]);
        assert(s.drop_first()[i - 1] == s[i]);
        lemma_first_where_unique(s.drop_first(), p, i - 1);
    }
}

} // verus!
