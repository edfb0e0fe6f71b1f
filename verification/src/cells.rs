//! Helpers shared by the grid operators: copying cells and counting values.
use vstd::prelude::*;

verus! {

/// How many cells of `s` hold `v`.
pub open spec fn occurrences(s: Seq<i8>, v: i8) -> nat
    decreases s.len(),
{
    if s.len() == 0 {
        0
    } else {
        occurrences(s.drop_last(), v) + if s.last() == v {
            1nat
        } else {
            0nat
        }
    }
}

/// The cells of `b` differ from those of `a` only where `a` holds `v` and
/// `b` does not.
pub open spec fn only_leaves(a: Seq<i8>, b: Seq<i8>, v: i8) -> bool {
    &&& a.len() == b.len()
    &&& forall|i: int| 0 <= i < a.len() && #[trigger] a[i] != b[i] ==> a[i] == v && b[i] != v
}

/// Leaving a value composes.
pub proof fn lemma_only_leaves_trans(a: Seq<i8>, b: Seq<i8>, c: Seq<i8>, v: i8)
    requires
        only_leaves(a, b, v),
        only_leaves(b, c, v),
    ensures
        only_leaves(a, c, v),
{
    assert forall|i: int| 0 <= i < a.len() && #[trigger] a[i] != c[i] implies a[i] == v && c[i]
        != v by {
        if a[i] != b[i] {
            assert(b[i] != v);
        }
    }
}

/// A cell count never exceeds the length.
pub proof fn lemma_occurrences_bound(s: Seq<i8>, v: i8)
    ensures
        occurrences(s, v) <= s.len(),
    decreases s.len(),
{
    if s.len() > 0 {
        lemma_occurrences_bound(s.drop_last(), v);
    }
}

/// When cells only leave value `v`, its count does not grow; it shrinks as
/// soon as one cell changes.
pub proof fn lemma_occurrences_shrink(a: Seq<i8>, b: Seq<i8>, v: i8)
    requires
        only_leaves(a, b, v),
    ensures
        occurrences(b, v) <= occurrences(a, v),
        a != b ==> occurrences(b, v) < occurrences(a, v),
    decreases a.len(),
{
    if a.len() > 0 {
        let a1 = a.drop_last();
        let b1 = b.drop_last();
        assert forall|i: int| 0 <= i < a1.len() && #[trigger] a1[i] != b1[i] implies a1[i] == v
            && b1[i] != v by {
            assert(a[i] != b[i]);
        }
        lemma_occurrences_shrink(a1, b1, v);
        if a != b && a.last() == b.last() {
            if a1 == b1 {
                assert(a =~= b) by {
                    assert forall|i: int| 0 <= i < a.len() implies a[i] == b[i] by {
                        if i < a1.len() {
                            assert(a1[i] == b1[i]);
                        }
                    }
                }
            }
        }
    } else {
        assert(a =~= b);
    }
}

/// A fresh vector holding the same cells.
pub(crate) fn copy_cells(grid: &[i8]) -> (out: Vec<i8>)
    ensures
        out@ == grid@,
{
    let mut out: Vec<i8> = Vec::new();
    let mut i: usize = 0;
    while i < grid.len()
        invariant
            i <= grid.len(),
            out@ == grid@.take(i as int),
        decreases grid.len() - i,
    {
        out.push(grid[i]);
        i += 1;
        assert(out@ =~= grid@.take(i as int));
    }
    assert(grid@.take(grid.len() as int) =~= grid@);
    out
}

} // verus!
