//! Rows of datums: the unit of transport in every stream.

use vstd::prelude::*;

verus! {

/// A single SQL-like value carried in a row.
///
/// `Null` is a first-class value: the join machinery equates `Null` with
/// `Null` (null-equal semantics, which is what `==` on `Datum` means), while
/// the SQL comparison functions propagate it instead.
#[derive(Clone, Copy, Debug, PartialEq, Eq, Structural)]
pub enum Datum {
    Null,
    False,
    True,
    Int(i64),
}

/// An ordered tuple of datums. Rows are immutable once packed.
#[derive(Debug)]
pub struct Row {
    pub datums: Vec<Datum>,
}

impl View for Row {
    type V = Seq<Datum>;

    open spec fn view(&self) -> Seq<Datum> {
        self.datums@
    }
}

impl Clone for Row {
    fn clone(&self) -> (r: Self)
        ensures
            r@ == self@,
    {
        let mut datums: Vec<Datum> = Vec::new();
        let mut i: usize = 0;
        while i < self.datums.len()
            invariant
                i <= self@.len(),
                datums@ == self@.take(i as int),
            decreases self@.len() - i,
        {
            datums.push(self.datums[i]);
            proof {
                assert(self@.take(i as int).push(self@[i as int]) =~= self@.take(i + 1 as int));
            }
            i += 1;
        }
        proof {
            assert(self@.take(self@.len() as int) =~= self@);
        }
        Row { datums }
    }
}

impl Row {
    /// Packs a list of datums into a row.
    pub fn new(datums: Vec<Datum>) -> (r: Row)
        ensures
            r@ == datums@,
    {
        Row { datums }
    }

    /// The number of columns in the row.
    pub fn len(&self) -> (r: usize)
        ensures
            r == self@.len(),
    {
        self.datums.len()
    }
}

/// Compares two rows datum by datum; `Null` equals `Null`.
pub fn row_eq(a: &Row, b: &Row) -> (r: bool)
    ensures
        r == (a@ == b@),
{
    if a.datums.len() != b.datums.len() {
        return false;
    }
    let n = a.datums.len();
    let mut i: usize = 0;
    while i < n
        invariant
            i <= n,
            n == a@.len(),
            n == b@.len(),
            forall|j: int| 0 <= j < i ==> a@[j] == b@[j],
        decreases n - i,
    {
        if a.datums[i] != b.datums[i] {
            assert(a@[i as int] != b@[i as int]);
            return false;
        }
        i += 1;
    }
    proof {
        assert(a@ =~= b@);
    }
    true
}

/// Appends the columns of `b` onto the columns of `a`.
pub fn row_concat(a: &Row, b: &Row) -> (r: Row)
    ensures
        r@ == a@ + b@,
{
    let mut datums: Vec<Datum> = Vec::new();
    let mut i: usize = 0;
    while i < a.datums.len()
        invariant
            i <= a@.len(),
            datums@ == a@.take(i as int),
        decreases a@.len() - i,
    {
        datums.push(a.datums[i]);
        proof {
            assert(a@.take(i as int).push(a@[i as int]) =~= a@.take(i + 1 as int));
        }
        i += 1;
    }
    proof {
        assert(a@.take(a@.len() as int) =~= a@);
    }
    let mut j: usize = 0;
    while j < b.datums.len()
        invariant
            j <= b@.len(),
            datums@ == a@ + b@.take(j as int),
        decreases b@.len() - j,
    {
        datums.push(b.datums[j]);
        proof {
            assert((a@ + b@.take(j as int)).push(b@[j as int]) =~= a@ + b@.take(j + 1 as int));
        }
        j += 1;
    }
    proof {
        assert(a@ + b@.take(b@.len() as int) =~= a@ + b@);
    }
    Row { datums }
}

} // verus!
