//! Erosion and dilation of cell sets over a neighbour relation, and the
//! algebra that makes opening and closing idempotent.
use vstd::prelude::*;

verus! {

/// Cells of `s` that are "complete" and whose every neighbour is in `s`.
pub open spec fn erode_set(
    s: spec_fn(int) -> bool,
    nb: spec_fn(int, int) -> bool,
    full: spec_fn(int) -> bool,
) -> spec_fn(int) -> bool {
    |x: int| s(x) && full(x) && (forall|y: int| #[trigger] nb(x, y) ==> s(y))
}

/// Cells of `s` together with every cell that has a neighbour in `s`.
pub open spec fn dilate_set(s: spec_fn(int) -> bool, nb: spec_fn(int, int) -> bool) -> spec_fn(
    int,
) -> bool {
    |x: int| s(x) || (exists|y: int| #[trigger] nb(x, y) && s(y))
}

/// The neighbour relation is symmetric.
pub open spec fn symmetric(nb: spec_fn(int, int) -> bool) -> bool {
    forall|x: int, y: int| #[trigger] nb(x, y) ==> nb(y, x)
}

/// Erosion and dilation are monotone.
pub proof fn lemma_monotone(
    a: spec_fn(int) -> bool,
    b: spec_fn(int) -> bool,
    nb: spec_fn(int, int) -> bool,
    full: spec_fn(int) -> bool,
)
    requires
        forall|x: int| #[trigger] a(x) ==> b(x),
    ensures
        forall|x: int| #[trigger] erode_set(a, nb, full)(x) ==> erode_set(b, nb, full)(x),
        forall|x: int| #[trigger] dilate_set(a, nb)(x) ==> dilate_set(b, nb)(x),
{
    assert forall|x: int| #[trigger] dilate_set(a, nb)(x) implies dilate_set(b, nb)(x) by {
        if !a(x) {
            let y = choose|y: int| #[trigger] nb(x, y) && a(y);
            assert(nb(x, y) && b(y));
        }
    }
}

/// Over a symmetric relation, dilating an erosion stays inside the set.
pub proof fn lemma_opening_shrinks(
    s: spec_fn(int) -> bool,
    nb: spec_fn(int, int) -> bool,
    full: spec_fn(int) -> bool,
)
    requires
        symmetric(nb),
    ensures
        forall|x: int| #[trigger] dilate_set(erode_set(s, nb, full), nb)(x) ==> s(x),
{
    let e = erode_set(s, nb, full);
    assert forall|x: int| #[trigger] dilate_set(e, nb)(x) implies s(x) by {
        if !e(x) {
            let y = choose|y: int| #[trigger] nb(x, y) && e(y);
            assert(nb(y, x));
        }
    }
}

/// Over a symmetric relation, an erosion survives a further dilation and erosion.
pub proof fn lemma_erosion_survives_opening(
    s: spec_fn(int) -> bool,
    nb: spec_fn(int, int) -> bool,
    full: spec_fn(int) -> bool,
)
    requires
        symmetric(nb),
    ensures
        forall|x: int|
            #[trigger] erode_set(s, nb, full)(x) ==> erode_set(
                dilate_set(erode_set(s, nb, full), nb),
                nb,
                full,
            )(x),
{
    let e = erode_set(s, nb, full);
    let d = dilate_set(e, nb);
    assert forall|x: int| #[trigger] e(x) implies erode_set(d, nb, full)(x) by {
        assert forall|y: int| #[trigger] nb(x, y) implies d(y) by {
            assert(nb(y, x));
        }
    }
}

/// Erosion after opening gives back the erosion.
pub proof fn lemma_erode_open_erode(
    s: spec_fn(int) -> bool,
    nb: spec_fn(int, int) -> bool,
    full: spec_fn(int) -> bool,
)
    requires
        symmetric(nb),
    ensures
        forall|x: int|
            #[trigger] erode_set(dilate_set(erode_set(s, nb, full), nb), nb, full)(x)
                == erode_set(s, nb, full)(x),
{
    let e = erode_set(s, nb, full);
    let d = dilate_set(e, nb);
    lemma_opening_shrinks(s, nb, full);
    lemma_monotone(d, s, nb, full);
    lemma_erosion_survives_opening(s, nb, full);
    assert forall|x: int| #[trigger] erode_set(d, nb, full)(x) == e(x) by {
        if erode_set(d, nb, full)(x) {
            assert(erode_set(s, nb, full)(x));
        }
        if e(x) {
            assert(erode_set(d, nb, full)(x));
        }
    }
}

/// Opening of sets is idempotent over a symmetric neighbour relation.
pub proof fn lemma_open_set_idempotent(
    s: spec_fn(int) -> bool,
    nb: spec_fn(int, int) -> bool,
    full: spec_fn(int) -> bool,
)
    requires
        symmetric(nb),
    ensures
        dilate_set(erode_set(dilate_set(erode_set(s, nb, full), nb), nb, full), nb)
            == dilate_set(erode_set(s, nb, full), nb),
{
    let e = erode_set(s, nb, full);
    let d = dilate_set(e, nb);
    lemma_erode_open_erode(s, nb, full);
    assert(erode_set(d, nb, full) =~= e);
}

/// Closing of sets is idempotent over a symmetric neighbour relation.
pub proof fn lemma_close_set_idempotent(
    s: spec_fn(int) -> bool,
    nb: spec_fn(int, int) -> bool,
    full: spec_fn(int) -> bool,
)
    requires
        symmetric(nb),
    ensures
        erode_set(dilate_set(erode_set(dilate_set(s, nb), nb, full), nb), nb, full)
            == erode_set(dilate_set(s, nb), nb, full),
{
    let d = dilate_set(s, nb);
    lemma_erode_open_erode(d, nb, full);
    assert(erode_set(dilate_set(erode_set(d, nb, full), nb), nb, full) =~= erode_set(
        d,
        nb,
        full,
    ));
}

} // verus!
