//! What the 4-connected operators compute on full rows, stated cell by cell
//! with the neighbours written out: the cells directly above and below, and
//! the cells left and right within the same row.
use vstd::prelude::*;
use vstd::arithmetic::div_mod::lemma_fundamental_div_mod;
use crate::four_connected::{
    adjacent4, boundary_spec, closing_spec, dilate_spec, erode_spec, is_grid, lemma_next_column,
    on_border, opening_spec, surrounded, touches, touches_other,
};

verus! {

/// Cell `j` is directly above, below, left of or right of cell `i` (left
/// and right within the same row) on a grid of `len` cells, `w` wide.
pub open spec fn grid_neighbour(len: int, w: int, i: int, j: int) -> bool {
    &&& 0 <= i < len
    &&& 0 <= j < len
    &&& ((i >= w && j == i - w) || (i + w < len && j == i + w) || (i % w != 0 && j == i - 1) || (i
        % w != w - 1 && j == i + 1))
}

/// Every grid neighbour of `x` holds `t`.
pub open spec fn neighbours_all(g: Seq<i8>, w: int, t: i8, x: int) -> bool {
    forall|j: int| #[trigger] grid_neighbour(g.len() as int, w, x, j) ==> g[j] == t
}

/// Some grid neighbour of `x` holds `t`.
pub open spec fn neighbour_holds(g: Seq<i8>, w: int, t: i8, x: int) -> bool {
    exists|j: int| #[trigger] grid_neighbour(g.len() as int, w, x, j) && g[j] == t
}

/// Some grid neighbour of `x` holds a value other than `t`.
pub open spec fn neighbour_differs(g: Seq<i8>, w: int, t: i8, x: int) -> bool {
    exists|j: int| #[trigger] grid_neighbour(g.len() as int, w, x, j) && g[j] != t
}

/// `x` holds `t` and so does every grid neighbour of it: it survives erosion.
pub open spec fn core_cell(g: Seq<i8>, w: int, t: i8, x: int) -> bool {
    g[x] == t && neighbours_all(g, w, t, x)
}

/// `x` holds `t` or has a grid neighbour holding `t`: dilation reaches it.
pub open spec fn reached_cell(g: Seq<i8>, w: int, t: i8, x: int) -> bool {
    g[x] == t || neighbour_holds(g, w, t, x)
}

/// On full rows, 4-adjacency is the grid-neighbour relation.
proof fn lemma_adjacency_is_grid_neighbour(len: int, w: int, i: int, j: int)
    requires
        is_grid(len, w),
    ensures
        adjacent4(len, w, i, j) == grid_neighbour(len, w, i, j),
{
    if 0 <= i < len && 0 <= j < len {
        lemma_next_column(i, w);
        if i % w + 1 < w {
            // a cell that is not last in its row has a right neighbour on the grid
            lemma_next_column(i, w);
        }
        if j == i + 1 && i % w == w - 1 {
            assert((i + 1) % w == 0);
        }
    }
}

/// The quantified neighbourhood predicates agree with the written-out ones.
proof fn lemma_neighbourhoods(g: Seq<i8>, w: int, t: i8, i: int)
    requires
        is_grid(g.len() as int, w),
    ensures
        surrounded(g, w, t, i) == neighbours_all(g, w, t, i),
        touches(g, w, t, i) == neighbour_holds(g, w, t, i),
        touches_other(g, w, t, i) == neighbour_differs(g, w, t, i),
{
    let len = g.len() as int;
    assert forall|j: int| #[trigger] adjacent4(len, w, i, j) == grid_neighbour(len, w, i, j) by {
        lemma_adjacency_is_grid_neighbour(len, w, i, j);
    }
    if surrounded(g, w, t, i) {
        assert forall|j: int| #[trigger] grid_neighbour(len, w, i, j) implies g[j] == t by {
            assert(adjacent4(len, w, i, j));
        }
    }
    if neighbours_all(g, w, t, i) {
        assert forall|j: int| #[trigger] adjacent4(len, w, i, j) implies g[j] == t by {
            assert(grid_neighbour(len, w, i, j));
        }
    }
    if touches(g, w, t, i) {
        let j = choose|j: int| #[trigger] adjacent4(len, w, i, j) && g[j] == t;
        assert(grid_neighbour(len, w, i, j));
    }
    if neighbour_holds(g, w, t, i) {
        let j = choose|j: int| #[trigger] grid_neighbour(len, w, i, j) && g[j] == t;
        assert(adjacent4(len, w, i, j));
    }
    if touches_other(g, w, t, i) {
        let j = choose|j: int| #[trigger] adjacent4(len, w, i, j) && g[j] != t;
        assert(grid_neighbour(len, w, i, j));
    }
    if neighbour_differs(g, w, t, i) {
        let j = choose|j: int| #[trigger] grid_neighbour(len, w, i, j) && g[j] != t;
        assert(adjacent4(len, w, i, j));
    }
}

/// On full rows, a cell is on the border exactly when it is in the first
/// row, the last row, the first column or the last column.
proof fn lemma_border_rows(len: int, w: int, i: int)
    requires
        is_grid(len, w),
        0 <= i < len,
    ensures
        on_border(len, w, i) == (i < w || i + w >= len || i % w == 0 || i % w == w - 1),
{
    lemma_fundamental_div_mod(i, w);
    lemma_fundamental_div_mod(len, w);
    let r = i / w;
    let c = i % w;
    let q = len / w;
    assert(len == w * q);
    assert(i == w * r + c);
    assert(r < q) by (nonlinear_arith)
        requires
            i == w * r + c,
            len == w * q,
            0 <= c < w,
            i < len,
    ;
    assert(r >= 0) by (nonlinear_arith)
        requires
            i == w * r + c,
            0 <= c < w,
            i >= 0,
    ;
    assert((r == 0) == (i < w)) by (nonlinear_arith)
        requires
            i == w * r + c,
            0 <= c < w,
            r >= 0,
    ;
    assert((r + 1 == q) == (i + w >= len)) by (nonlinear_arith)
        requires
            i == w * r + c,
            len == w * q,
            0 <= c < w,
            0 <= r < q,
    ;
}

/// Erosion keeps a target cell exactly when all its grid neighbours hold
/// the target, else clears it to 0; other cells keep their value.
pub proof fn lemma_erode_cells(g: Seq<i8>, w: int, t: i8)
    requires
        is_grid(g.len() as int, w),
    ensures
        erode_spec(g, w, t).len() == g.len(),
        forall|i: int|
            0 <= i < g.len() ==> #[trigger] erode_spec(g, w, t)[i] == if g[i] != t {
                g[i]
            } else if neighbours_all(g, w, t, i) {
                t
            } else {
                0i8
            },
{
    assert forall|i: int| 0 <= i < g.len() implies #[trigger] erode_spec(g, w, t)[i] == if g[i]
        != t {
        g[i]
    } else if neighbours_all(g, w, t, i) {
        t
    } else {
        0i8
    } by {
        lemma_neighbourhoods(g, w, t, i);
    }
}

/// Dilation makes a cell the target exactly when it holds the target or a
/// grid neighbour does; other cells keep their value.
pub proof fn lemma_dilate_cells(g: Seq<i8>, w: int, t: i8)
    requires
        is_grid(g.len() as int, w),
    ensures
        dilate_spec(g, w, t).len() == g.len(),
        forall|i: int|
            0 <= i < g.len() ==> #[trigger] dilate_spec(g, w, t)[i] == if reached_cell(g, w, t, i) {
                t
            } else {
                g[i]
            },
{
    assert forall|i: int| 0 <= i < g.len() implies #[trigger] dilate_spec(g, w, t)[i] == if reached_cell(
        g,
        w,
        t,
        i,
    ) {
        t
    } else {
        g[i]
    } by {
        lemma_neighbourhoods(g, w, t, i);
    }
}

/// The boundary holds the target exactly at target cells in the first or
/// last row or column, or with a grid neighbour holding another value;
/// every other cell is 0.
pub proof fn lemma_boundary_cells(g: Seq<i8>, w: int, t: i8)
    requires
        is_grid(g.len() as int, w),
    ensures
        boundary_spec(g, w, t).len() == g.len(),
        forall|i: int|
            0 <= i < g.len() ==> #[trigger] boundary_spec(g, w, t)[i] == if g[i] == t && (i < w || i
                + w >= g.len() || i % w == 0 || i % w == w - 1 || neighbour_differs(g, w, t, i)) {
                t
            } else {
                0i8
            },
{
    assert forall|i: int| 0 <= i < g.len() implies #[trigger] boundary_spec(g, w, t)[i] == if g[i]
        == t && (i < w || i + w >= g.len() || i % w == 0 || i % w == w - 1 || neighbour_differs(
        g,
        w,
        t,
        i,
    )) {
        t
    } else {
        0i8
    } by {
        lemma_neighbourhoods(g, w, t, i);
        lemma_border_rows(g.len() as int, w, i);
    }
}

/// For a nonzero target, opening keeps a target cell exactly when it, or a
/// grid neighbour, is a core cell (it and all its grid neighbours hold the
/// target), adds no target cell, clears the other target cells to 0 and
/// leaves every other cell unchanged.
pub proof fn lemma_opening_cells(g: Seq<i8>, w: int, t: i8)
    requires
        is_grid(g.len() as int, w),
        t != 0,
    ensures
        opening_spec(g, w, t).len() == g.len(),
        forall|i: int|
            0 <= i < g.len() ==> #[trigger] opening_spec(g, w, t)[i] == if core_cell(g, w, t, i)
                || (exists|j: int|
                #[trigger] grid_neighbour(g.len() as int, w, i, j) && core_cell(g, w, t, j)) {
                t
            } else if g[i] == t {
                0i8
            } else {
                g[i]
            },
{
    let e = erode_spec(g, w, t);
    lemma_erode_cells(g, w, t);
    lemma_dilate_cells(e, w, t);
    let len = g.len() as int;
    assert forall|i: int| 0 <= i < g.len() implies #[trigger] opening_spec(g, w, t)[i] == if core_cell(
        g,
        w,
        t,
        i,
    ) || (exists|j: int| #[trigger] grid_neighbour(g.len() as int, w, i, j) && core_cell(g, w, t, j)) {
        t
    } else if g[i] == t {
        0i8
    } else {
        g[i]
    } by {
        assert((e[i] == t) == core_cell(g, w, t, i));
        if neighbour_holds(e, w, t, i) {
            let j = choose|j: int| #[trigger] grid_neighbour(len, w, i, j) && e[j] == t;
            assert(core_cell(g, w, t, j));
        }
        if exists|j: int| #[trigger] grid_neighbour(len, w, i, j) && core_cell(g, w, t, j) {
            let j = choose|j: int| #[trigger] grid_neighbour(len, w, i, j) && core_cell(g, w, t, j);
            assert(e[j] == t);
        }
    }
}

/// For a nonzero target, closing makes a cell the target exactly when
/// dilation reaches it and every grid neighbour of it; a cell dilation
/// reaches that fails this becomes 0, and every other cell is unchanged.
pub proof fn lemma_closing_cells(g: Seq<i8>, w: int, t: i8)
    requires
        is_grid(g.len() as int, w),
        t != 0,
    ensures
        closing_spec(g, w, t).len() == g.len(),
        forall|i: int|
            0 <= i < g.len() ==> #[trigger] closing_spec(g, w, t)[i] == if reached_cell(g, w, t, i)
                && (forall|j: int|
                #[trigger] grid_neighbour(g.len() as int, w, i, j) ==> reached_cell(g, w, t, j)) {
                t
            } else if reached_cell(g, w, t, i) {
                0i8
            } else {
                g[i]
            },
{
    let d = dilate_spec(g, w, t);
    lemma_dilate_cells(g, w, t);
    lemma_erode_cells(d, w, t);
    let len = g.len() as int;
    assert forall|i: int| 0 <= i < g.len() implies #[trigger] closing_spec(g, w, t)[i] == if reached_cell(
        g,
        w,
        t,
        i,
    ) && (forall|j: int| #[trigger] grid_neighbour(g.len() as int, w, i, j) ==> reached_cell(g, w, t, j)) {
        t
    } else if reached_cell(g, w, t, i) {
        0i8
    } else {
        g[i]
    } by {
        if neighbours_all(d, w, t, i) {
            assert forall|j: int| #[trigger] grid_neighbour(len, w, i, j) implies reached_cell(
                g,
                w,
                t,
                j,
            ) by {
                assert(d[j] == t);
            }
        }
        if forall|j: int| #[trigger] grid_neighbour(len, w, i, j) ==> reached_cell(g, w, t, j) {
            assert forall|j: int| #[trigger] grid_neighbour(len, w, i, j) implies d[j] == t by {
                assert(reached_cell(g, w, t, j));
            }
        }
    }
}

} // verus!
