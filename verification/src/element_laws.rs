//! What the structuring-element operators compute, stated cell by cell in
//! grid coordinates: the cell at row `r`, column `c` of a `w`-wide grid is
//! `r * w + c`, and an offset `(dr, dc)` moves from it to row `r + dr`,
//! column `c + dc`.
use vstd::prelude::*;
use crate::structuring::{
    all_dark, all_lit, any_lit, clamped_difference, closing_spec, conditional_dilation_spec, dark,
    dilation_spec, erosion_spec, hit_or_miss_spec, lit, opening_spec, square_offsets,
};

verus! {

/// Offset `off` from cell `x` stays inside the `w` by `h` grid.
pub open spec fn offset_on_grid(w: int, h: int, x: int, off: (i32, i32)) -> bool {
    0 <= x / w + off.0 < h && 0 <= x % w + off.1 < w
}

/// The cell that offset `off` moves to from cell `x`.
pub open spec fn offset_cell(w: int, x: int, off: (i32, i32)) -> int {
    (x / w + off.0) * w + (x % w + off.1)
}

/// Offset `off` from `x` lands on a grid cell holding +1.
pub open spec fn lands_on_one(g: Seq<i8>, w: int, h: int, x: int, off: (i32, i32)) -> bool {
    offset_on_grid(w, h, x, off) && g[offset_cell(w, x, off)] == 1
}

/// Offset `off` from `x` lands on a grid cell holding something other than +1.
pub open spec fn lands_off_one(g: Seq<i8>, w: int, h: int, x: int, off: (i32, i32)) -> bool {
    offset_on_grid(w, h, x, off) && g[offset_cell(w, x, off)] != 1
}

/// Every offset of the element lands on a +1 grid cell.
pub open spec fn element_covered(g: Seq<i8>, w: int, h: int, se: Seq<(i32, i32)>, x: int) -> bool {
    forall|k: int| 0 <= k < se.len() ==> #[trigger] lands_on_one(g, w, h, x, se[k])
}

/// Some offset of the element lands on a +1 grid cell.
pub open spec fn element_touches(g: Seq<i8>, w: int, h: int, se: Seq<(i32, i32)>, x: int) -> bool {
    exists|k: int| 0 <= k < se.len() && #[trigger] lands_on_one(g, w, h, x, se[k])
}

/// Every offset of the element lands on a grid cell other than +1.
pub open spec fn element_avoids(g: Seq<i8>, w: int, h: int, se: Seq<(i32, i32)>, x: int) -> bool {
    forall|k: int| 0 <= k < se.len() ==> #[trigger] lands_off_one(g, w, h, x, se[k])
}

/// The element placed at `x` fits inside the +1 cells: `x` is +1 and so is
/// every cell its offsets reach, all on the grid.
pub open spec fn element_fits(g: Seq<i8>, w: int, h: int, se: Seq<(i32, i32)>, x: int) -> bool {
    g[x] == 1 && element_covered(g, w, h, se, x)
}

/// Cell `x` is +1 or one of the element's offsets reaches a +1 cell.
pub open spec fn element_hits(g: Seq<i8>, w: int, h: int, se: Seq<(i32, i32)>, x: int) -> bool {
    g[x] == 1 || element_touches(g, w, h, se, x)
}

/// A landing offset reaches a grid cell.
proof fn lemma_offset_cell_on_grid(w: int, h: int, x: int, off: (i32, i32))
    requires
        0 <= x < w * h,
        w >= 0,
        h >= 0,
        offset_on_grid(w, h, x, off),
    ensures
        0 <= offset_cell(w, x, off) < w * h,
{
    let r = x / w + off.0;
    let c = x % w + off.1;
    assert(0 <= r * w) by (nonlinear_arith)
        requires
            0 <= r,
            0 <= c < w,
    ;
    assert(r * w + c < w * h) by (nonlinear_arith)
        requires
            0 <= r < h,
            0 <= c < w,
    ;
}

/// The scans behind the operators read exactly the cell an offset lands on.
proof fn lemma_scans_land(g: Seq<i8>, w: int, h: int, se: Seq<(i32, i32)>, x: int)
    ensures
        forall|k: int|
            0 <= k < se.len() ==> #[trigger] lit(g, w, h, x, se[k]) == lands_on_one(
                g,
                w,
                h,
                x,
                se[k],
            ) && dark(g, w, h, x, se[k]) == lands_off_one(g, w, h, x, se[k]),
        all_lit(g, w, h, se, x) == element_covered(g, w, h, se, x),
        any_lit(g, w, h, se, x) == element_touches(g, w, h, se, x),
        all_dark(g, w, h, se, x) == element_avoids(g, w, h, se, x),
{
    assert forall|k: int| 0 <= k < se.len() implies #[trigger] lit(g, w, h, x, se[k])
        == lands_on_one(g, w, h, x, se[k]) && dark(g, w, h, x, se[k]) == lands_off_one(
        g,
        w,
        h,
        x,
        se[k],
    ) by {}
    if any_lit(g, w, h, se, x) {
        let k = choose|k: int| 0 <= k < se.len() && #[trigger] lit(g, w, h, x, se[k]);
        assert(lands_on_one(g, w, h, x, se[k]));
    }
    if element_touches(g, w, h, se, x) {
        let k = choose|k: int| 0 <= k < se.len() && #[trigger] lands_on_one(g, w, h, x, se[k]);
        assert(lit(g, w, h, x, se[k]));
    }
    if all_lit(g, w, h, se, x) {
        assert forall|k: int| 0 <= k < se.len() implies #[trigger] lands_on_one(g, w, h, x, se[k]) by {
            assert(lit(g, w, h, x, se[k]));
        }
    }
    if element_covered(g, w, h, se, x) {
        assert forall|k: int| 0 <= k < se.len() implies #[trigger] lit(g, w, h, x, se[k]) by {
            assert(lands_on_one(g, w, h, x, se[k]));
        }
    }
    if all_dark(g, w, h, se, x) {
        assert forall|k: int| 0 <= k < se.len() implies #[trigger] lands_off_one(g, w, h, x, se[k]) by {
            assert(dark(g, w, h, x, se[k]));
        }
    }
    if element_avoids(g, w, h, se, x) {
        assert forall|k: int| 0 <= k < se.len() implies #[trigger] dark(g, w, h, x, se[k]) by {
            assert(lands_off_one(g, w, h, x, se[k]));
        }
    }
}

/// Dilation turns a grid cell into +1 exactly when it is +1 or an offset of
/// the element reaches a +1 cell; every other cell keeps its value.
pub proof fn lemma_dilation_cells(g: Seq<i8>, w: int, h: int, se: Seq<(i32, i32)>)
    ensures
        dilation_spec(g, w, h, se).len() == g.len(),
        forall|i: int|
            0 <= i < g.len() ==> #[trigger] dilation_spec(g, w, h, se)[i] == if 0 <= i < w * h
                && element_hits(g, w, h, se, i) {
                1i8
            } else {
                g[i]
            },
{
    assert forall|i: int| 0 <= i < g.len() implies #[trigger] dilation_spec(g, w, h, se)[i] == if 0
        <= i < w * h && element_hits(g, w, h, se, i) {
        1i8
    } else {
        g[i]
    } by {
        lemma_scans_land(g, w, h, se, i);
    }
}

/// Erosion turns a +1 grid cell into 0 exactly when some offset of the
/// element misses the +1 cells (or leaves the grid); every other cell keeps
/// its value.
pub proof fn lemma_erosion_cells(g: Seq<i8>, w: int, h: int, se: Seq<(i32, i32)>)
    ensures
        erosion_spec(g, w, h, se).len() == g.len(),
        forall|i: int|
            0 <= i < g.len() ==> #[trigger] erosion_spec(g, w, h, se)[i] == if 0 <= i < w * h
                && g[i] == 1 && !element_covered(g, w, h, se, i) {
                0i8
            } else {
                g[i]
            },
{
    assert forall|i: int| 0 <= i < g.len() implies #[trigger] erosion_spec(g, w, h, se)[i] == if 0
        <= i < w * h && g[i] == 1 && !element_covered(g, w, h, se, i) {
        0i8
    } else {
        g[i]
    } by {
        lemma_scans_land(g, w, h, se, i);
    }
}

/// Opening keeps a grid cell +1 exactly when the element fits inside the +1
/// cells at that cell, or at a cell one of its offsets reaches; other +1
/// grid cells become 0 and every other cell keeps its value.
pub proof fn lemma_opening_cells(g: Seq<i8>, w: int, h: int, se: Seq<(i32, i32)>)
    requires
        w >= 0,
        h >= 0,
        w * h <= g.len(),
    ensures
        opening_spec(g, w, h, se).len() == g.len(),
        forall|i: int|
            0 <= i < g.len() ==> #[trigger] opening_spec(g, w, h, se)[i] == if 0 <= i < w * h && (
            element_fits(g, w, h, se, i) || exists|k: int|
                0 <= k < se.len() && #[trigger] offset_on_grid(w, h, i, se[k]) && element_fits(
                    g,
                    w,
                    h,
                    se,
                    offset_cell(w, i, se[k]),
                )) {
                1i8
            } else if 0 <= i < w * h && g[i] == 1 {
                0i8
            } else {
                g[i]
            },
{
    let e = erosion_spec(g, w, h, se);
    let o = opening_spec(g, w, h, se);
    lemma_erosion_cells(g, w, h, se);
    lemma_dilation_cells(e, w, h, se);
    assert forall|i: int| 0 <= i < g.len() implies #[trigger] o[i] == if 0 <= i < w * h && (
    element_fits(g, w, h, se, i) || exists|k: int|
        0 <= k < se.len() && #[trigger] offset_on_grid(w, h, i, se[k]) && element_fits(
            g,
            w,
            h,
            se,
            offset_cell(w, i, se[k]),
        )) {
        1i8
    } else if 0 <= i < w * h && g[i] == 1 {
        0i8
    } else {
        g[i]
    } by {
        if 0 <= i < w * h {
            let fits_here = element_fits(g, w, h, se, i);
            let fits_near = exists|k: int|
                0 <= k < se.len() && #[trigger] offset_on_grid(w, h, i, se[k]) && element_fits(
                    g,
                    w,
                    h,
                    se,
                    offset_cell(w, i, se[k]),
                );
            assert((e[i] == 1) == fits_here);
            if element_touches(e, w, h, se, i) {
                let k = choose|k: int| 0 <= k < se.len() && #[trigger] lands_on_one(e, w, h, i, se[k]);
                lemma_offset_cell_on_grid(w, h, i, se[k]);
                assert(offset_on_grid(w, h, i, se[k]) && element_fits(g, w, h, se, offset_cell(w, i, se[k])));
            }
            if fits_near {
                let k = choose|k: int|
                    0 <= k < se.len() && #[trigger] offset_on_grid(w, h, i, se[k]) && element_fits(
                        g,
                        w,
                        h,
                        se,
                        offset_cell(w, i, se[k]),
                    );
                lemma_offset_cell_on_grid(w, h, i, se[k]);
                assert(lands_on_one(e, w, h, i, se[k]));
            }
        }
    }
}

/// Closing keeps a grid cell +1 exactly when it is hit by the element (it
/// is +1 or an offset reaches a +1 cell) and every offset from it lands on
/// the grid on a cell that is hit too; other hit cells become 0, and every
/// cell that is not hit keeps its value.
pub proof fn lemma_closing_cells(g: Seq<i8>, w: int, h: int, se: Seq<(i32, i32)>)
    requires
        w >= 0,
        h >= 0,
        w * h <= g.len(),
    ensures
        closing_spec(g, w, h, se).len() == g.len(),
        forall|i: int|
            0 <= i < g.len() ==> #[trigger] closing_spec(g, w, h, se)[i] == if 0 <= i < w * h
                && element_hits(g, w, h, se, i) && (forall|k: int|
                0 <= k < se.len() ==> #[trigger] offset_on_grid(w, h, i, se[k]) && element_hits(
                    g,
                    w,
                    h,
                    se,
                    offset_cell(w, i, se[k]),
                )) {
                1i8
            } else if 0 <= i < w * h && element_hits(g, w, h, se, i) {
                0i8
            } else {
                g[i]
            },
{
    let d = dilation_spec(g, w, h, se);
    let c = closing_spec(g, w, h, se);
    lemma_dilation_cells(g, w, h, se);
    lemma_erosion_cells(d, w, h, se);
    assert forall|i: int| 0 <= i < g.len() implies #[trigger] c[i] == if 0 <= i < w * h
        && element_hits(g, w, h, se, i) && (forall|k: int|
        0 <= k < se.len() ==> #[trigger] offset_on_grid(w, h, i, se[k]) && element_hits(
            g,
            w,
            h,
            se,
            offset_cell(w, i, se[k]),
        )) {
        1i8
    } else if 0 <= i < w * h && element_hits(g, w, h, se, i) {
        0i8
    } else {
        g[i]
    } by {
        if 0 <= i < w * h {
            let all_hit = forall|k: int|
                0 <= k < se.len() ==> #[trigger] offset_on_grid(w, h, i, se[k]) && element_hits(
                    g,
                    w,
                    h,
                    se,
                    offset_cell(w, i, se[k]),
                );
            if element_covered(d, w, h, se, i) {
                assert forall|k: int| 0 <= k < se.len() implies #[trigger] offset_on_grid(
                    w,
                    h,
                    i,
                    se[k],
                ) && element_hits(g, w, h, se, offset_cell(w, i, se[k])) by {
                    assert(lands_on_one(d, w, h, i, se[k]));
                    lemma_offset_cell_on_grid(w, h, i, se[k]);
                }
            }
            if all_hit {
                assert forall|k: int| 0 <= k < se.len() implies #[trigger] lands_on_one(
                    d,
                    w,
                    h,
                    i,
                    se[k],
                ) by {
                    assert(offset_on_grid(w, h, i, se[k]));
                    lemma_offset_cell_on_grid(w, h, i, se[k]);
                }
            }
        }
    }
}

/// Hit-or-miss gives one cell per grid cell: 1 exactly where every
/// foreground offset lands on a +1 grid cell and every background offset
/// lands on a grid cell that is not +1 (0 and -1 alike), else 0.
pub proof fn lemma_hit_or_miss_cells(
    g: Seq<i8>,
    w: int,
    h: int,
    fg: Seq<(i32, i32)>,
    bg: Seq<(i32, i32)>,
)
    requires
        w >= 0,
        h >= 0,
    ensures
        hit_or_miss_spec(g, w, h, fg, bg).len() == w * h,
        forall|i: int|
            0 <= i < w * h ==> #[trigger] hit_or_miss_spec(g, w, h, fg, bg)[i] == if (forall|k: int|
                0 <= k < fg.len() ==> offset_on_grid(w, h, i, #[trigger] fg[k]) && g[offset_cell(
                    w,
                    i,
                    fg[k],
                )] == 1) && (forall|k: int|
                0 <= k < bg.len() ==> offset_on_grid(w, h, i, #[trigger] bg[k]) && g[offset_cell(
                    w,
                    i,
                    bg[k],
                )] != 1) {
                1i8
            } else {
                0i8
            },
{
    assert(0 <= w * h) by (nonlinear_arith)
        requires
            w >= 0,
            h >= 0,
    ;
    assert forall|i: int| 0 <= i < w * h implies #[trigger] hit_or_miss_spec(g, w, h, fg, bg)[i]
        == if (forall|k: int|
        0 <= k < fg.len() ==> offset_on_grid(w, h, i, #[trigger] fg[k]) && g[offset_cell(
            w,
            i,
            fg[k],
        )] == 1) && (forall|k: int|
        0 <= k < bg.len() ==> offset_on_grid(w, h, i, #[trigger] bg[k]) && g[offset_cell(
            w,
            i,
            bg[k],
        )] != 1) {
        1i8
    } else {
        0i8
    } by {
        lemma_scans_land(g, w, h, fg, i);
        lemma_scans_land(g, w, h, bg, i);
        if element_covered(g, w, h, fg, i) {
            assert forall|k: int| 0 <= k < fg.len() implies offset_on_grid(w, h, i, #[trigger] fg[k])
                && g[offset_cell(w, i, fg[k])] == 1 by {
                assert(lands_on_one(g, w, h, i, fg[k]));
            }
        }
        if forall|k: int|
            0 <= k < fg.len() ==> offset_on_grid(w, h, i, #[trigger] fg[k]) && g[offset_cell(
                w,
                i,
                fg[k],
            )] == 1 {
            assert forall|k: int| 0 <= k < fg.len() implies #[trigger] lands_on_one(g, w, h, i, fg[k]) by {
                assert(offset_on_grid(w, h, i, fg[k]));
            }
        }
        if element_avoids(g, w, h, bg, i) {
            assert forall|k: int| 0 <= k < bg.len() implies offset_on_grid(w, h, i, #[trigger] bg[k])
                && g[offset_cell(w, i, bg[k])] != 1 by {
                assert(lands_off_one(g, w, h, i, bg[k]));
            }
        }
        if forall|k: int|
            0 <= k < bg.len() ==> offset_on_grid(w, h, i, #[trigger] bg[k]) && g[offset_cell(
                w,
                i,
                bg[k],
            )] != 1 {
            assert forall|k: int| 0 <= k < bg.len() implies #[trigger] lands_off_one(g, w, h, i, bg[k]) by {
                assert(offset_on_grid(w, h, i, bg[k]));
            }
        }
    }
}

/// Conditional dilation turns a grid cell into +1 exactly when the marker
/// is not +1 there, the mask is +1 there, and an offset of the given
/// element reaches a +1 marker cell; every other cell keeps the marker's
/// value. On the grid it is the element's dilation of the marker where the
/// mask is +1, and the marker elsewhere.
pub proof fn lemma_conditional_dilation_cells(
    marker: Seq<i8>,
    mask: Seq<i8>,
    w: int,
    h: int,
    se: Seq<(i32, i32)>,
)
    ensures
        conditional_dilation_spec(marker, mask, w, h, se).len() == marker.len(),
        forall|i: int|
            0 <= i < marker.len() ==> #[trigger] conditional_dilation_spec(marker, mask, w, h, se)[i]
                == if 0 <= i < w * h && marker[i] != 1 && mask[i] == 1 && (exists|k: int|
                0 <= k < se.len() && offset_on_grid(w, h, i, #[trigger] se[k]) && marker[offset_cell(
                    w,
                    i,
                    se[k],
                )] == 1) {
                1i8
            } else {
                marker[i]
            },
        forall|i: int|
            0 <= i < marker.len() && 0 <= i < w * h ==> #[trigger] conditional_dilation_spec(
                marker,
                mask,
                w,
                h,
                se,
            )[i] == if mask[i] == 1 {
                dilation_spec(marker, w, h, se)[i]
            } else {
                marker[i]
            },
{
    lemma_dilation_cells(marker, w, h, se);
    assert forall|i: int| 0 <= i < marker.len() implies #[trigger] conditional_dilation_spec(
        marker,
        mask,
        w,
        h,
        se,
    )[i] == if 0 <= i < w * h && marker[i] != 1 && mask[i] == 1 && (exists|k: int|
                0 <= k < se.len() && offset_on_grid(w, h, i, #[trigger] se[k]) && marker[offset_cell(
                    w,
                    i,
                    se[k],
                )] == 1) {
        1i8
    } else {
        marker[i]
    } by {
        lemma_scans_land(marker, w, h, se, i);
        if element_touches(marker, w, h, se, i) {
            let k = choose|k: int| 0 <= k < se.len() && #[trigger] lands_on_one(marker, w, h, i, se[k]);
            assert(offset_on_grid(w, h, i, se[k]));
        }
        if exists|k: int|
            0 <= k < se.len() && offset_on_grid(w, h, i, #[trigger] se[k]) && marker[offset_cell(
                w,
                i,
                se[k],
            )] == 1 {
            let k = choose|k: int|
                0 <= k < se.len() && offset_on_grid(w, h, i, #[trigger] se[k]) && marker[offset_cell(
                    w,
                    i,
                    se[k],
                )] == 1;
            assert(lands_on_one(marker, w, h, i, se[k]));
        }
    }
}

/// The clamped difference lies in -1..=1, equals the difference when that
/// lies in -1..=1, and otherwise has its sign.
pub proof fn lemma_clamped_difference_cells(a: Seq<i8>, b: Seq<i8>)
    ensures
        clamped_difference(a, b).len() == a.len(),
        forall|i: int|
            0 <= i < a.len() ==> {
                let d = a[i] - b[i];
                let v = #[trigger] clamped_difference(a, b)[i];
                &&& -1 <= v <= 1
                &&& (-1 <= d <= 1 ==> v == d)
                &&& (d > 1 ==> v == 1)
                &&& (d < -1 ==> v == -1)
            },
{
}

/// The 3x3 square element holds exactly the eight offsets of at most one
/// row and one column, other than (0, 0).
pub proof fn lemma_square_offsets_cells()
    ensures
        square_offsets().len() == 8,
        forall|k: int|
            0 <= k < 8 ==> -1 <= #[trigger] square_offsets()[k].0 <= 1 && -1
                <= square_offsets()[k].1 <= 1 && square_offsets()[k] != (0i32, 0i32),
        forall|dr: i32, dc: i32|
            -1 <= dr <= 1 && -1 <= dc <= 1 && (dr, dc) != (0i32, 0i32) ==> #[trigger] square_offsets().contains(
                (dr, dc),
            ),
        forall|k: int, m: int| 0 <= k < m < 8 ==> square_offsets()[k] != square_offsets()[m],
{
    let s = square_offsets();
    assert(s[0] == (-1i32, -1i32) && s[1] == (-1i32, 0i32) && s[2] == (-1i32, 1i32));
    assert(s[3] == (0i32, -1i32) && s[4] == (0i32, 1i32));
    assert(s[5] == (1i32, -1i32) && s[6] == (1i32, 0i32) && s[7] == (1i32, 1i32));
    assert forall|dr: i32, dc: i32|
        -1 <= dr <= 1 && -1 <= dc <= 1 && (dr, dc) != (0i32, 0i32) implies #[trigger] s.contains(
        (dr, dc),
    ) by {
        let k: int = if dr == -1 {
            dc + 1
        } else if dr == 0 {
            if dc == -1 {
                3
            } else {
                4
            }
        } else {
            dc + 6
        };
        assert(s[k] == (dr, dc));
    }
}

} // verus!
