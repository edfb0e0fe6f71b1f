//! Morphology of +1 regions with an arbitrary structuring element: a list of
//! (row, column) offsets. The grid is `w` columns by `h` rows, stored row by
//! row at the front of the cell slice; cells past `w * h` are left alone.
use vstd::prelude::*;
use vstd::arithmetic::div_mod::lemma_fundamental_div_mod;
use vstd::arithmetic::div_mod::lemma_fundamental_div_mod_converse;
use crate::cells::{copy_cells, lemma_occurrences_bound, lemma_occurrences_shrink, occurrences, only_leaves};
use crate::lattice::{
    dilate_set, erode_set, lemma_close_set_idempotent, lemma_open_set_idempotent,
    lemma_opening_shrinks, symmetric,
};

verus! {

/// The grid fits the cell slice and, when it has cells, its coordinates fit
/// `i32`.
pub open spec fn fits(len: int, w: int, h: int) -> bool {
    &&& w * h > 0 ==> w <= i32::MAX && h <= i32::MAX
    &&& w * h <= len
}

/// The cell reached from (`r`, `c`) by offset `off`, if it is on the grid.
pub open spec fn probe(w: int, h: int, r: int, c: int, off: (i32, i32)) -> Option<int> {
    let nr = r + off.0;
    let nc = c + off.1;
    if nr < 0 || nc < 0 || nr >= h || nc >= w {
        None
    } else {
        Some(nr * w + nc)
    }
}

/// The cell reached from cell `i` by offset `off` is on the grid and holds +1.
pub open spec fn lit(g: Seq<i8>, w: int, h: int, i: int, off: (i32, i32)) -> bool {
    match probe(w, h, i / w, i % w, off) {
        Some(n) => g[n] == 1,
        None => false,
    }
}

/// The cell reached from cell `i` by offset `off` is on the grid and does not
/// hold +1.
pub open spec fn dark(g: Seq<i8>, w: int, h: int, i: int, off: (i32, i32)) -> bool {
    match probe(w, h, i / w, i % w, off) {
        Some(n) => g[n] != 1,
        None => false,
    }
}

/// Some offset of `se` reaches a +1 cell from cell `i`.
pub open spec fn any_lit(g: Seq<i8>, w: int, h: int, se: Seq<(i32, i32)>, i: int) -> bool {
    exists|k: int| 0 <= k < se.len() && #[trigger] lit(g, w, h, i, se[k])
}

/// Every offset of `se` reaches a +1 cell from cell `i`.
pub open spec fn all_lit(g: Seq<i8>, w: int, h: int, se: Seq<(i32, i32)>, i: int) -> bool {
    forall|k: int| 0 <= k < se.len() ==> #[trigger] lit(g, w, h, i, se[k])
}

/// Every offset of `se` reaches an on-grid cell that does not hold +1.
pub open spec fn all_dark(g: Seq<i8>, w: int, h: int, se: Seq<(i32, i32)>, i: int) -> bool {
    forall|k: int| 0 <= k < se.len() ==> #[trigger] dark(g, w, h, i, se[k])
}

/// Dilation: a grid cell becomes +1 if it is +1 or some offset reaches a +1
/// cell; every other cell is unchanged.
pub open spec fn dilation_spec(g: Seq<i8>, w: int, h: int, se: Seq<(i32, i32)>) -> Seq<i8> {
    Seq::new(
        g.len(),
        |i: int|
            if 0 <= i < w * h && (g[i] == 1 || any_lit(g, w, h, se, i)) {
                1i8
            } else {
                g[i]
            },
    )
}

/// Erosion: a +1 grid cell stays +1 only if every offset reaches a +1 cell
/// on the grid, else it becomes 0; every other cell is unchanged.
pub open spec fn erosion_spec(g: Seq<i8>, w: int, h: int, se: Seq<(i32, i32)>) -> Seq<i8> {
    Seq::new(
        g.len(),
        |i: int|
            if 0 <= i < w * h && g[i] == 1 && !all_lit(g, w, h, se, i) {
                0i8
            } else {
                g[i]
            },
    )
}

/// Opening: erosion followed by dilation.
pub open spec fn opening_spec(g: Seq<i8>, w: int, h: int, se: Seq<(i32, i32)>) -> Seq<i8> {
    dilation_spec(erosion_spec(g, w, h, se), w, h, se)
}

/// Closing: dilation followed by erosion.
pub open spec fn closing_spec(g: Seq<i8>, w: int, h: int, se: Seq<(i32, i32)>) -> Seq<i8> {
    erosion_spec(dilation_spec(g, w, h, se), w, h, se)
}

/// `x` clamped to -1..=1.
pub open spec fn clamp_unit(x: int) -> i8 {
    if x < -1 {
        -1i8
    } else if x > 1 {
        1i8
    } else {
        x as i8
    }
}

/// Cell-wise `a - b`, clamped to -1..=1.
pub open spec fn clamped_difference(a: Seq<i8>, b: Seq<i8>) -> Seq<i8> {
    Seq::new(a.len(), |i: int| clamp_unit(a[i] - b[i]))
}

/// Cell-wise `a - b` does not overflow `i8`.
pub open spec fn difference_fits(a: Seq<i8>, b: Seq<i8>) -> bool {
    forall|i: int| 0 <= i < a.len() ==> i8::MIN <= #[trigger] a[i] - b[i] <= i8::MAX
}

/// The offsets of the 3x3 square around a cell, centre excluded.
pub open spec fn square_offsets() -> Seq<(i32, i32)> {
    seq![
        (-1i32, -1i32),
        (-1i32, 0i32),
        (-1i32, 1i32),
        (0i32, -1i32),
        (0i32, 1i32),
        (1i32, -1i32),
        (1i32, 0i32),
        (1i32, 1i32),
    ]
}

/// Returns the 8-connected offsets for a 3x3 structuring element (excluding centre).
pub fn se_3x3() -> (se: Vec<(i32, i32)>)
    ensures
        se@ == square_offsets(),
{
    let se = vec![(-1, -1), (-1, 0), (-1, 1), (0, -1), (0, 1), (1, -1), (1, 0), (1, 1)];
    assert(se@ =~= square_offsets());
    se
}

/// A cell index and its row and column.
proof fn lemma_row_col(i: int, w: int, h: int)
    requires
        0 <= i < w * h,
        w >= 0,
        h >= 0,
    ensures
        w > 0,
        0 <= i / w < h,
        0 <= i % w < w,
        i == (i / w) * w + i % w,
{
    if w == 0 {
        assert(w * h == 0);
    }
    lemma_fundamental_div_mod(i, w);
    assert((i / w) * w == w * (i / w)) by (nonlinear_arith);
    if i / w >= h {
        assert((i / w) * w >= h * w) by (nonlinear_arith)
            requires
                i / w >= h,
                w > 0,
        ;
        assert(h * w == w * h) by (nonlinear_arith);
    }
    if i / w < 0 {
        assert((i / w) * w <= -w) by (nonlinear_arith)
            requires
                i / w < 0,
                w > 0,
        ;
    }
}

/// The cell at row `r`, column `c`.
proof fn lemma_cell_index(r: int, c: int, w: int, h: int)
    requires
        0 <= r < h,
        0 <= c < w,
    ensures
        0 <= r * w + c < w * h,
        (r * w + c) / w == r,
        (r * w + c) % w == c,
{
    assert(0 <= r * w) by (nonlinear_arith)
        requires
            0 <= r,
            0 <= c < w,
    ;
    assert(r * w + c < w * h) by (nonlinear_arith)
        requires
            0 <= r < h,
            0 <= c < w,
    ;
    lemma_fundamental_div_mod_converse(r * w + c, w, r, c);
}

/// Convert (row, col) offset to flat index, returning None if out of bounds.
fn offset_to_idx(row: i32, col: i32, r: i32, c: i32, w: usize, h: usize) -> (ni: Option<usize>)
    requires
        w <= i32::MAX,
        h <= i32::MAX,
        probe(w as int, h as int, r as int, c as int, (row, col)) matches Some(n) ==> n
            <= usize::MAX,
    ensures
        match ni {
            Some(n) => probe(w as int, h as int, r as int, c as int, (row, col)) == Some(n as int)
                && n < w * h,
            None => probe(w as int, h as int, r as int, c as int, (row, col)) is None,
        },
{
    // wide arithmetic: no offset can overflow
    let nr: i64 = r as i64 + row as i64;
    let nc: i64 = c as i64 + col as i64;
    if nr < 0 || nc < 0 || nr >= h as i64 || nc >= w as i64 {
        None
    } else {
        proof {
            lemma_cell_index(nr as int, nc as int, w as int, h as int);
        }
        Some((nr as usize) * w + (nc as usize))
    }
}

/// Probing from cell `idx` by offset `off`.
fn probe_cell(idx: usize, off: (i32, i32), w: usize, h: usize) -> (ni: Option<usize>)
    requires
        fits(usize::MAX as int, w as int, h as int),
        idx < w * h,
    ensures
        match ni {
            Some(n) => probe(w as int, h as int, idx as int / w as int, idx as int % w as int, off)
                == Some(n as int) && n < w * h,
            None => probe(w as int, h as int, idx as int / w as int, idx as int % w as int, off) is None,
        },
{
    proof {
        lemma_row_col(idx as int, w as int, h as int);
    }
    let r = idx / w;
    let c = idx % w;
    proof {
        lemma_probe_on_grid(w as int, h as int, r as int, c as int, off);
    }
    offset_to_idx(off.0, off.1, r as i32, c as i32, w, h)
}

/// Whether some offset of `se` reaches a +1 cell from cell `idx`; the scan
/// stops at the first such offset.
fn any_offset_lit(grid: &[i8], idx: usize, w: usize, h: usize, se: &[(i32, i32)]) -> (found: bool)
    requires
        fits(grid@.len() as int, w as int, h as int),
        idx < w * h,
    ensures
        found == any_lit(grid@, w as int, h as int, se@, idx as int),
{
    let len = grid.len();
    let mut found = false;
    let mut k: usize = 0;
    while k < se.len() && !found
        invariant
            k <= se.len(),
            len == grid@.len(),
            fits(grid@.len() as int, w as int, h as int),
            idx < w * h,
            found == exists|m: int|
                0 <= m < k && #[trigger] lit(grid@, w as int, h as int, idx as int, se@[m]),
        decreases se.len() - k,
    {
        match probe_cell(idx, se[k], w, h) {
            Some(ni) => {
                if grid[ni] == 1 {
                    found = true;
                }
            },
            None => {},
        }
        assert(found == lit(grid@, w as int, h as int, idx as int, se@[k as int]));
        k += 1;
    }
    found
}

/// Offset `off` from cell `i` reaches a cell on the grid that holds +1 (when
/// `want_lit`) or that does not hold +1 (otherwise).
pub open spec fn passes(g: Seq<i8>, w: int, h: int, i: int, off: (i32, i32), want_lit: bool) -> bool {
    if want_lit {
        lit(g, w, h, i, off)
    } else {
        dark(g, w, h, i, off)
    }
}

/// Scanning the offsets of `se` in order from grid cell `i`, stopping at the
/// first that does not pass, only lands on cells of `g`: an offset landing
/// past the end of `g` comes after one that fails.
pub open spec fn scan_reads_cells(
    g: Seq<i8>,
    w: int,
    h: int,
    se: Seq<(i32, i32)>,
    i: int,
    want_lit: bool,
) -> bool {
    forall|k: int|
        0 <= k < se.len() && (#[trigger] probe(w, h, i / w, i % w, se[k]) matches Some(n) && n
            >= g.len()) ==> exists|m: int|
            0 <= m < k && !passes(g, w, h, i, #[trigger] se[m], want_lit)
}

/// On a grid that fits its cell slice, every scan only lands on its cells.
proof fn lemma_fits_scans(g: Seq<i8>, w: int, h: int, se: Seq<(i32, i32)>, i: int, want_lit: bool)
    requires
        fits(g.len() as int, w, h),
        w >= 0,
        h >= 0,
    ensures
        scan_reads_cells(g, w, h, se, i, want_lit),
{
    assert forall|k: int|
        0 <= k < se.len() && (#[trigger] probe(w, h, i / w, i % w, se[k]) matches Some(n) && n
            >= g.len()) implies exists|m: int|
        0 <= m < k && !passes(g, w, h, i, #[trigger] se[m], want_lit) by {
        lemma_probe_on_grid(w, h, i / w, i % w, se[k]);
    }
}

/// Whether every offset of `se` reaches a cell on the grid that holds +1
/// (when `lit_wanted`) or that does not (otherwise); the scan stops at the
/// first offset that fails.
fn all_offsets(
    grid: &[i8],
    idx: usize,
    w: usize,
    h: usize,
    se: &[(i32, i32)],
    lit_wanted: bool,
) -> (all: bool)
    requires
        fits(usize::MAX as int, w as int, h as int),
        idx < w * h,
        scan_reads_cells(grid@, w as int, h as int, se@, idx as int, lit_wanted),
    ensures
        lit_wanted ==> all == all_lit(grid@, w as int, h as int, se@, idx as int),
        !lit_wanted ==> all == all_dark(grid@, w as int, h as int, se@, idx as int),
{
    let len = grid.len();
    let ghost g = grid@;
    let ghost wi = w as int;
    let ghost hi = h as int;
    let ghost ii = idx as int;
    let mut all = true;
    let mut k: usize = 0;
    while k < se.len() && all
        invariant
            k <= se.len(),
            len == grid@.len(),
            fits(usize::MAX as int, w as int, h as int),
            idx < w * h,
            g == grid@,
            wi == w,
            hi == h,
            ii == idx,
            scan_reads_cells(g, wi, hi, se@, ii, lit_wanted),
            all == forall|m: int| 0 <= m < k ==> #[trigger] passes(g, wi, hi, ii, se@[m], lit_wanted),
        decreases se.len() - k,
    {
        let ok = match probe_cell(idx, se[k], w, h) {
            Some(ni) => {
                if ni >= len {
                    let ghost m = choose|m: int|
                        0 <= m < k && !passes(g, wi, hi, ii, #[trigger] se@[m], lit_wanted);
                    assert(false);
                }
                (grid[ni] == 1) == lit_wanted
            },
            None => false,
        };
        assert(ok == passes(g, wi, hi, ii, se@[k as int], lit_wanted));
        if !ok {
            all = false;
        }
        k += 1;
    }
    assert(lit_wanted ==> (all == all_lit(g, wi, hi, se@, ii))) by {
        if lit_wanted {
            assert forall|m: int| 0 <= m < se.len() implies #[trigger] lit(g, wi, hi, ii, se@[m])
                == passes(g, wi, hi, ii, se@[m], lit_wanted) by {}
        }
    }
    assert(!lit_wanted ==> (all == all_dark(g, wi, hi, se@, ii))) by {
        if !lit_wanted {
            assert forall|m: int| 0 <= m < se.len() implies #[trigger] dark(g, wi, hi, ii, se@[m])
                == passes(g, wi, hi, ii, se@[m], lit_wanted) by {}
        }
    }
    all
}

/// Dilation: a cell becomes +1 if any neighbour in the SE is +1. Non-+1 cells
/// that aren't hit remain unchanged (preserving -1 cells).
pub fn dilation(grid: &[i8], w: usize, h: usize, se: &[(i32, i32)]) -> (dilated: Vec<i8>)
    requires
        fits(grid@.len() as int, w as int, h as int),
    ensures
        dilated@ == dilation_spec(grid@, w as int, h as int, se@),
{
    let len = grid.len();
    let mut out = copy_cells(grid);
    let n = w * h;
    let mut idx: usize = 0;
    while idx < n
        invariant
            idx <= n,
            n == w * h,
            fits(grid@.len() as int, w as int, h as int),
            out@.len() == grid@.len(),
            forall|k: int|
                0 <= k < idx ==> out@[k] == dilation_spec(grid@, w as int, h as int, se@)[k],
            forall|k: int| idx <= k < out@.len() ==> out@[k] == grid@[k],
        decreases n - idx,
    {
        // a +1 cell is already +1
        if grid[idx] != 1 {
            if any_offset_lit(grid, idx, w, h, se) {
                out.set(idx, 1);
            }
        }
        idx += 1;
    }
    assert(out@ =~= dilation_spec(grid@, w as int, h as int, se@));
    out
}

/// Erosion: a +1 cell stays +1 only if ALL SE neighbors are +1.
/// Non-+1 cells remain unchanged.
pub fn erosion(grid: &[i8], w: usize, h: usize, se: &[(i32, i32)]) -> (eroded: Vec<i8>)
    requires
        fits(grid@.len() as int, w as int, h as int),
    ensures
        eroded@ == erosion_spec(grid@, w as int, h as int, se@),
{
    let len = grid.len();
    let mut out = copy_cells(grid);
    let n = w * h;
    let mut idx: usize = 0;
    while idx < n
        invariant
            idx <= n,
            n == w * h,
            fits(grid@.len() as int, w as int, h as int),
            out@.len() == grid@.len(),
            forall|k: int|
                0 <= k < idx ==> out@[k] == erosion_spec(grid@, w as int, h as int, se@)[k],
            forall|k: int| idx <= k < out@.len() ==> out@[k] == grid@[k],
        decreases n - idx,
    {
        if grid[idx] == 1 {
            proof {
                lemma_fits_scans(grid@, w as int, h as int, se@, idx as int, true);
            }
            if !all_offsets(grid, idx, w, h, se, true) {
                out.set(idx, 0);
            }
        }
        idx += 1;
    }
    assert(out@ =~= erosion_spec(grid@, w as int, h as int, se@));
    out
}

/// Opening: erosion followed by dilation.
pub fn opening(grid: &[i8], w: usize, h: usize, se: &[(i32, i32)]) -> (opened: Vec<i8>)
    requires
        fits(grid@.len() as int, w as int, h as int),
    ensures
        opened@ == opening_spec(grid@, w as int, h as int, se@),
{
    let eroded = erosion(grid, w, h, se);
    dilation(eroded.as_slice(), w, h, se)
}

/// Closing: dilation followed by erosion.
pub fn closing(grid: &[i8], w: usize, h: usize, se: &[(i32, i32)]) -> (closed: Vec<i8>)
    requires
        fits(grid@.len() as int, w as int, h as int),
    ensures
        closed@ == closing_spec(grid@, w as int, h as int, se@),
{
    let dilated = dilation(grid, w, h, se);
    erosion(dilated.as_slice(), w, h, se)
}

/// Cell-wise `a - b`, clamped to -1..=1.
fn clamp_difference(a: &[i8], b: &[i8]) -> (diff: Vec<i8>)
    requires
        a@.len() == b@.len(),
        difference_fits(a@, b@),
    ensures
        diff@ == clamped_difference(a@, b@),
{
    let mut out: Vec<i8> = Vec::new();
    let mut i: usize = 0;
    while i < a.len()
        invariant
            i <= a@.len(),
            a@.len() == b@.len(),
            difference_fits(a@, b@),
            out@.len() == i,
            forall|k: int| 0 <= k < i ==> out@[k] == clamped_difference(a@, b@)[k],
        decreases a.len() - i,
    {
        assert(i8::MIN <= a@[i as int] - b@[i as int] <= i8::MAX);
        let d: i8 = a[i] - b[i];
        let c: i8 = if d < -1 {
            -1
        } else if d > 1 {
            1
        } else {
            d
        };
        out.push(c);
        i += 1;
    }
    assert(out@ =~= clamped_difference(a@, b@));
    out
}

/// Morphological gradient: dilation - erosion (elementwise).
/// Result values are in {-1, 0, +1} — clamped.
pub fn gradient(grid: &[i8], w: usize, h: usize, se: &[(i32, i32)]) -> (grad: Vec<i8>)
    requires
        fits(grid@.len() as int, w as int, h as int),
        difference_fits(
            dilation_spec(grid@, w as int, h as int, se@),
            erosion_spec(grid@, w as int, h as int, se@),
        ),
    ensures
        grad@ == clamped_difference(
            dilation_spec(grid@, w as int, h as int, se@),
            erosion_spec(grid@, w as int, h as int, se@),
        ),
        forall|i: int| 0 <= i < grad@.len() ==> -1 <= #[trigger] grad@[i] <= 1,
{
    let dil = dilation(grid, w, h, se);
    let ero = erosion(grid, w, h, se);
    clamp_difference(dil.as_slice(), ero.as_slice())
}

/// Top hat: grid - opening.
pub fn top_hat(grid: &[i8], w: usize, h: usize, se: &[(i32, i32)]) -> (hat: Vec<i8>)
    requires
        fits(grid@.len() as int, w as int, h as int),
        difference_fits(grid@, opening_spec(grid@, w as int, h as int, se@)),
    ensures
        hat@ == clamped_difference(grid@, opening_spec(grid@, w as int, h as int, se@)),
        forall|i: int| 0 <= i < hat@.len() ==> -1 <= #[trigger] hat@[i] <= 1,
{
    let op = opening(grid, w, h, se);
    clamp_difference(grid, op.as_slice())
}

/// Black hat: closing - grid.
pub fn black_hat(grid: &[i8], w: usize, h: usize, se: &[(i32, i32)]) -> (hat: Vec<i8>)
    requires
        fits(grid@.len() as int, w as int, h as int),
        difference_fits(closing_spec(grid@, w as int, h as int, se@), grid@),
    ensures
        hat@ == clamped_difference(closing_spec(grid@, w as int, h as int, se@), grid@),
        forall|i: int| 0 <= i < hat@.len() ==> -1 <= #[trigger] hat@[i] <= 1,
{
    let cl = closing(grid, w, h, se);
    clamp_difference(cl.as_slice(), grid)
}

/// Hit-or-miss: a cell of the result is +1 exactly where every foreground
/// offset reaches a +1 cell and every background offset reaches a cell
/// that is not +1, all on the grid; the result has `w * h` cells.
pub open spec fn hit_or_miss_spec(
    g: Seq<i8>,
    w: int,
    h: int,
    fg: Seq<(i32, i32)>,
    bg: Seq<(i32, i32)>,
) -> Seq<i8> {
    Seq::new(
        (w * h) as nat,
        |i: int|
            if all_lit(g, w, h, fg, i) && all_dark(g, w, h, bg, i) {
                1i8
            } else {
                0i8
            },
    )
}

/// The grid's coordinates fit `i32`, its size fits `usize`, and both
/// pattern scans of every grid cell only land on cells of `g`.
pub open spec fn hit_or_miss_defined(
    g: Seq<i8>,
    w: int,
    h: int,
    fg: Seq<(i32, i32)>,
    bg: Seq<(i32, i32)>,
) -> bool {
    &&& fits(usize::MAX as int, w, h)
    &&& forall|i: int|
        0 <= i < w * h ==> #[trigger] scan_reads_cells(g, w, h, fg, i, true) && scan_reads_cells(
            g,
            w,
            h,
            bg,
            i,
            false,
        )
}

/// Hit-or-miss: match foreground pattern (fg_se must be +1) AND background pattern
/// (bg_se must be 0 or -1) simultaneously.
pub fn hit_or_miss(
    grid: &[i8],
    w: usize,
    h: usize,
    fg_se: &[(i32, i32)],
    bg_se: &[(i32, i32)],
) -> (matched: Vec<i8>)
    requires
        hit_or_miss_defined(grid@, w as int, h as int, fg_se@, bg_se@),
    ensures
        matched@ == hit_or_miss_spec(grid@, w as int, h as int, fg_se@, bg_se@),
{
    let len = grid.len();
    let n = w * h;
    let mut out: Vec<i8> = Vec::new();
    let mut idx: usize = 0;
    while idx < n
        invariant
            idx <= n,
            n == w * h,
            hit_or_miss_defined(grid@, w as int, h as int, fg_se@, bg_se@),
            out@.len() == idx,
            forall|k: int|
                0 <= k < idx ==> out@[k] == hit_or_miss_spec(
                    grid@,
                    w as int,
                    h as int,
                    fg_se@,
                    bg_se@,
                )[k],
        decreases n - idx,
    {
        assert(scan_reads_cells(grid@, w as int, h as int, fg_se@, idx as int, true));
        let fg_match = all_offsets(grid, idx, w, h, fg_se, true);
        let bg_match = all_offsets(grid, idx, w, h, bg_se, false);
        if fg_match && bg_match {
            out.push(1);
        } else {
            out.push(0);
        }
        idx += 1;
    }
    assert(out@ =~= hit_or_miss_spec(grid@, w as int, h as int, fg_se@, bg_se@));
    out
}

/// Conditional dilation: a grid cell that is not +1 but is +1 in the mask
/// becomes +1 when some offset reaches a +1 cell of the marker; every other
/// cell keeps the marker's value.
pub open spec fn conditional_dilation_spec(
    marker: Seq<i8>,
    mask: Seq<i8>,
    w: int,
    h: int,
    se: Seq<(i32, i32)>,
) -> Seq<i8> {
    Seq::new(
        marker.len(),
        |i: int|
            if 0 <= i < w * h && marker[i] != 1 && mask[i] == 1 && any_lit(marker, w, h, se, i) {
                1i8
            } else {
                marker[i]
            },
    )
}

/// The mask has a cell for every grid cell where the marker is not +1: the
/// only cells whose mask value conditional dilation reads.
pub open spec fn mask_covers(marker: Seq<i8>, mask: Seq<i8>, w: int, h: int) -> bool {
    forall|i: int| 0 <= i < w * h && #[trigger] marker[i] != 1 ==> i < mask.len()
}

/// Conditional dilation: dilate marker but only where mask is +1.
pub fn conditional_dilation(
    marker: &[i8],
    mask: &[i8],
    w: usize,
    h: usize,
    se: &[(i32, i32)],
) -> (grown: Vec<i8>)
    requires
        fits(marker@.len() as int, w as int, h as int),
        mask_covers(marker@, mask@, w as int, h as int),
    ensures
        grown@ == conditional_dilation_spec(marker@, mask@, w as int, h as int, se@),
{
    let len = marker.len();
    let mut out = copy_cells(marker);
    let n = w * h;
    let mut idx: usize = 0;
    while idx < n
        invariant
            idx <= n,
            n == w * h,
            fits(marker@.len() as int, w as int, h as int),
            mask_covers(marker@, mask@, w as int, h as int),
            out@.len() == marker@.len(),
            forall|k: int|
                0 <= k < idx ==> out@[k] == conditional_dilation_spec(
                    marker@,
                    mask@,
                    w as int,
                    h as int,
                    se@,
                )[k],
            forall|k: int| idx <= k < out@.len() ==> out@[k] == marker@[k],
        decreases n - idx,
    {
        if out[idx] != 1 && mask[idx] == 1 {
            // `mask[idx]` is read only where the marker is not +1
            if any_offset_lit(marker, idx, w, h, se) {
                out.set(idx, 1);
            }
        }
        idx += 1;
    }
    assert(out@ =~= conditional_dilation_spec(marker@, mask@, w as int, h as int, se@));
    out
}

/// Conditional dilation only turns cells into +1.
pub proof fn lemma_conditional_dilation_grows(
    marker: Seq<i8>,
    mask: Seq<i8>,
    w: int,
    h: int,
    se: Seq<(i32, i32)>,
)
    ensures
        only_leaves(conditional_dilation_spec(marker, mask, w, h, se), marker, 1),
        occurrences(marker, 1) <= occurrences(conditional_dilation_spec(marker, mask, w, h, se), 1),
        conditional_dilation_spec(marker, mask, w, h, se) != marker ==> occurrences(marker, 1)
            < occurrences(conditional_dilation_spec(marker, mask, w, h, se), 1),
        occurrences(conditional_dilation_spec(marker, mask, w, h, se), 1) <= marker.len(),
{
    let next = conditional_dilation_spec(marker, mask, w, h, se);
    assert(only_leaves(next, marker, 1));
    lemma_occurrences_shrink(next, marker, 1);
    lemma_occurrences_bound(next, 1);
}

/// Morphological reconstruction: conditional dilation of the marker inside
/// the mask, with the 3x3 square, repeated until nothing changes.
pub open spec fn reconstruct_spec(cur: Seq<i8>, mask: Seq<i8>, w: int, h: int) -> Seq<i8>
    decreases cur.len() - occurrences(cur, 1),
{
    let next = conditional_dilation_spec(cur, mask, w, h, square_offsets());
    if next == cur {
        cur
    } else {
        proof {
            lemma_conditional_dilation_grows(cur, mask, w, h, square_offsets());
        }
        reconstruct_spec(next, mask, w, h)
    }
}

/// Reconstruction keeps every +1 cell of the marker, adds +1 cells only on
/// grid cells that are +1 in the mask, and ends stable: a further conditional
/// dilation, or a further reconstruction, changes nothing.
pub proof fn lemma_reconstruct_properties(marker: Seq<i8>, mask: Seq<i8>, w: int, h: int)
    ensures
        reconstruct_spec(marker, mask, w, h).len() == marker.len(),
        forall|i: int|
            0 <= i < marker.len() && marker[i] == 1 ==> #[trigger] reconstruct_spec(
                marker,
                mask,
                w,
                h,
            )[i] == 1,
        forall|i: int|
            0 <= i < marker.len() && #[trigger] reconstruct_spec(marker, mask, w, h)[i]
                != marker[i] ==> 0 <= i < w * h && mask[i] == 1 && reconstruct_spec(
                marker,
                mask,
                w,
                h,
            )[i] == 1,
        conditional_dilation_spec(reconstruct_spec(marker, mask, w, h), mask, w, h, square_offsets())
            == reconstruct_spec(marker, mask, w, h),
        reconstruct_spec(reconstruct_spec(marker, mask, w, h), mask, w, h) == reconstruct_spec(
            marker,
            mask,
            w,
            h,
        ),
    decreases marker.len() - occurrences(marker, 1),
{
    let next = conditional_dilation_spec(marker, mask, w, h, square_offsets());
    let r = reconstruct_spec(marker, mask, w, h);
    if next != marker {
        lemma_conditional_dilation_grows(marker, mask, w, h, square_offsets());
        lemma_reconstruct_properties(next, mask, w, h);
        assert(r == reconstruct_spec(next, mask, w, h));
        assert forall|i: int| 0 <= i < marker.len() && marker[i] == 1 implies #[trigger] r[i] == 1 by {
            assert(next[i] == 1);
        }
        assert forall|i: int| 0 <= i < marker.len() && #[trigger] r[i] != marker[i] implies 0 <= i
            < w * h && mask[i] == 1 && r[i] == 1 by {
            if r[i] == next[i] {
                assert(next[i] != marker[i]);
            }
        }
    }
}

/// `p` is a growth walk: it starts on a grid cell that is +1 in the marker,
/// every later cell is a grid cell that is +1 in the marker or in the mask,
/// and from each cell an offset of the 3x3 square reaches the one before.
pub open spec fn is_growth_walk(marker: Seq<i8>, mask: Seq<i8>, w: int, h: int, p: Seq<int>) -> bool {
    &&& p.len() > 0
    &&& 0 <= p[0] < w * h
    &&& marker[p[0]] == 1
    &&& forall|j: int|
        1 <= j < p.len() ==> 0 <= #[trigger] p[j] < w * h && (marker[p[j]] == 1 || mask[p[j]]
            == 1)
    &&& forall|j: int|
        0 <= j < p.len() - 1 ==> #[trigger] reach(w, h, square_offsets())(p[j + 1], p[j])
}

/// Cell `x` is reached by a growth walk: it is 8-connected to a +1 cell of
/// the marker through cells that are +1 in the mask or the marker.
pub open spec fn grown(marker: Seq<i8>, mask: Seq<i8>, w: int, h: int, x: int) -> bool {
    exists|p: Seq<int>| #[trigger] is_growth_walk(marker, mask, w, h, p) && p.last() == x
}

/// Every +1 cell met while reconstructing is a marker cell or grown.
proof fn lemma_reconstruct_sound(marker: Seq<i8>, cur: Seq<i8>, mask: Seq<i8>, w: int, h: int)
    requires
        w >= 0,
        h >= 0,
        w * h <= marker.len(),
        cur.len() == marker.len(),
        forall|x: int|
            0 <= x < cur.len() && #[trigger] cur[x] == 1 ==> marker[x] == 1 || (x < w * h && grown(
                marker,
                mask,
                w,
                h,
                x,
            )),
    ensures
        forall|x: int|
            0 <= x < cur.len() && #[trigger] reconstruct_spec(cur, mask, w, h)[x] == 1 ==> marker[x]
                == 1 || (x < w * h && grown(marker, mask, w, h, x)),
    decreases cur.len() - occurrences(cur, 1),
{
    let se = square_offsets();
    let next = conditional_dilation_spec(cur, mask, w, h, se);
    if next != cur {
        lemma_conditional_dilation_grows(cur, mask, w, h, se);
        assert forall|x: int|
            0 <= x < next.len() && #[trigger] next[x] == 1 implies marker[x] == 1 || (x < w * h
            && grown(marker, mask, w, h, x)) by {
            if cur[x] != 1 {
                assert(0 <= x < w * h && mask[x] == 1 && any_lit(cur, w, h, se, x));
                let k = choose|k: int| 0 <= k < se.len() && #[trigger] lit(cur, w, h, x, se[k]);
                lemma_row_col(x, w, h);
                lemma_probe_on_grid(w, h, x / w, x % w, se[k]);
                let y = probe(w, h, x / w, x % w, se[k])->Some_0;
                assert(cur[y] == 1);
                assert(reach(w, h, se)(x, y));
                if marker[y] == 1 {
                    let p = seq![y, x];
                    assert(p[0int + 1] == x && p[0int] == y);
                    assert(is_growth_walk(marker, mask, w, h, p));
                } else {
                    let p = choose|p: Seq<int>|
                        #[trigger] is_growth_walk(marker, mask, w, h, p) && p.last() == y;
                    let q = p.push(x);
                    assert forall|j: int| 0 <= j < q.len() - 1 implies #[trigger] reach(
                        w,
                        h,
                        square_offsets(),
                    )(q[j + 1], q[j]) by {
                        if j < p.len() - 1 {
                            assert(reach(w, h, square_offsets())(p[j + 1], p[j]));
                        }
                    }
                    assert(is_growth_walk(marker, mask, w, h, q));
                }
            }
        }
        lemma_reconstruct_sound(marker, next, mask, w, h);
        assert(reconstruct_spec(cur, mask, w, h) == reconstruct_spec(next, mask, w, h));
    } else {
        assert(reconstruct_spec(cur, mask, w, h) == cur);
    }
}

/// Along a growth walk, a stable grid that keeps the marker holds +1.
proof fn lemma_growth_walk_covered(marker: Seq<i8>, mask: Seq<i8>, w: int, h: int, r: Seq<i8>, p: Seq<int>)
    requires
        w >= 0,
        h >= 0,
        w * h <= marker.len(),
        r.len() == marker.len(),
        is_growth_walk(marker, mask, w, h, p),
        forall|x: int| 0 <= x < marker.len() && marker[x] == 1 ==> #[trigger] r[x] == 1,
        conditional_dilation_spec(r, mask, w, h, square_offsets()) == r,
    ensures
        r[p.last()] == 1,
    decreases p.len(),
{
    let se = square_offsets();
    if p.len() > 1 {
        let n = p.len() as int;
        let q = p.drop_last();
        assert forall|j: int| 0 <= j < q.len() - 1 implies #[trigger] reach(w, h, square_offsets())(
            q[j + 1],
            q[j],
        ) by {
            assert(reach(w, h, square_offsets())(p[j + 1], p[j]));
        }
        assert(is_growth_walk(marker, mask, w, h, q));
        lemma_growth_walk_covered(marker, mask, w, h, r, q);
        let x = p[n - 1];
        let y = p[n - 2];
        assert(reach(w, h, square_offsets())(p[(n - 2) + 1], p[n - 2]));
        let k = choose|k: int| 0 <= k < se.len() && #[trigger] probe(w, h, x / w, x % w, se[k]) == Some(y);
        assert(lit(r, w, h, x, se[k]));
        if r[x] != 1 {
            assert(marker[x] != 1);
            assert(mask[x] == 1);
            assert(conditional_dilation_spec(r, mask, w, h, se)[x] == 1);
        }
    }
}

/// Reconstruction gives exactly the marker's +1 cells together with the grid
/// cells grown from them: those 8-connected to a +1 marker cell through
/// cells that are +1 in the mask or the marker.
pub proof fn lemma_reconstruct_is_grown_region(marker: Seq<i8>, mask: Seq<i8>, w: int, h: int)
    requires
        w >= 0,
        h >= 0,
        w * h <= marker.len(),
    ensures
        forall|x: int|
            0 <= x < marker.len() ==> (#[trigger] reconstruct_spec(marker, mask, w, h)[x] == 1
                <==> marker[x] == 1 || (x < w * h && grown(marker, mask, w, h, x))),
{
    let r = reconstruct_spec(marker, mask, w, h);
    lemma_reconstruct_properties(marker, mask, w, h);
    lemma_reconstruct_sound(marker, marker, mask, w, h);
    assert forall|x: int|
        0 <= x < marker.len() && (marker[x] == 1 || (x < w * h && grown(marker, mask, w, h, x)))
            implies #[trigger] r[x] == 1 by {
        if marker[x] != 1 {
            let p = choose|p: Seq<int>| #[trigger] is_growth_walk(marker, mask, w, h, p) && p.last() == x;
            lemma_growth_walk_covered(marker, mask, w, h, r, p);
        }
    }
}

/// Whether two vectors hold the same cells.
fn same_cells(a: &Vec<i8>, b: &Vec<i8>) -> (same: bool)
    ensures
        same == (a@ == b@),
{
    if a.len() != b.len() {
        return false;
    }
    let mut i: usize = 0;
    while i < a.len()
        invariant
            i <= a.len(),
            a.len() == b.len(),
            forall|k: int| 0 <= k < i ==> a@[k] == b@[k],
        decreases a.len() - i,
    {
        if a[i] != b[i] {
            return false;
        }
        i += 1;
    }
    assert(a@ =~= b@);
    true
}

/// Morphological reconstruction: iteratively dilate marker constrained by mask until stable.
pub fn reconstruct(marker: &[i8], mask: &[i8], w: usize, h: usize) -> (rebuilt: Vec<i8>)
    requires
        fits(marker@.len() as int, w as int, h as int),
        mask_covers(marker@, mask@, w as int, h as int),
    ensures
        rebuilt@ == reconstruct_spec(marker@, mask@, w as int, h as int),
{
    let se = se_3x3();
    let mut current = copy_cells(marker);
    proof {
        lemma_occurrences_bound(current@, 1);
    }
    loop
        invariant
            current@.len() == marker@.len(),
            fits(marker@.len() as int, w as int, h as int),
            mask_covers(current@, mask@, w as int, h as int),
            se@ == square_offsets(),
            occurrences(current@, 1) <= current@.len(),
            reconstruct_spec(current@, mask@, w as int, h as int) == reconstruct_spec(
                marker@,
                mask@,
                w as int,
                h as int,
            ),
        decreases current@.len() - occurrences(current@, 1),
    {
        let next = conditional_dilation(current.as_slice(), mask, w, h, se.as_slice());
        if same_cells(&next, &current) {
            return current;
        }
        proof {
            lemma_conditional_dilation_grows(current@, mask@, w as int, h as int, se@);
            assert forall|i: int| 0 <= i < w * h && #[trigger] next@[i] != 1 implies i
                < mask@.len() by {
                assert(current@[i] != 1);
            }
        }
        current = next;
    }
}

/// Every offset's opposite is an offset too.
pub open spec fn symmetric_offsets(se: Seq<(i32, i32)>) -> bool {
    forall|k: int|
        0 <= k < se.len() ==> exists|k2: int|
            0 <= k2 < se.len() && se[k2].0 == -(#[trigger] se[k]).0 && se[k2].1 == -se[k].1
}

/// The +1 cells of the grid.
pub open spec fn ones(g: Seq<i8>, w: int, h: int) -> spec_fn(int) -> bool {
    |x: int| 0 <= x < w * h && g[x] == 1
}

/// Cell `y` is reached from grid cell `x` by some offset.
pub open spec fn reach(w: int, h: int, se: Seq<(i32, i32)>) -> spec_fn(int, int) -> bool {
    |x: int, y: int|
        0 <= x < w * h && exists|k: int|
            0 <= k < se.len() && #[trigger] probe(w, h, x / w, x % w, se[k]) == Some(y)
}

/// Every offset from cell `x` stays on the grid.
pub open spec fn inside(w: int, h: int, se: Seq<(i32, i32)>) -> spec_fn(int) -> bool {
    |x: int| forall|k: int| 0 <= k < se.len() ==> #[trigger] probe(w, h, x / w, x % w, se[k]) is Some
}

/// A probe that lands on the grid lands on a grid cell.
proof fn lemma_probe_on_grid(w: int, h: int, r: int, c: int, off: (i32, i32))
    requires
        w >= 0,
        h >= 0,
    ensures
        probe(w, h, r, c, off) matches Some(n) ==> 0 <= n < w * h && n / w == r + off.0 && n % w
            == c + off.1,
{
    if probe(w, h, r, c, off) is Some {
        lemma_cell_index(r + off.0, c + off.1, w, h);
    }
}

/// The square offsets are symmetric.
pub proof fn lemma_square_offsets_symmetric()
    ensures
        symmetric_offsets(square_offsets()),
{
    let se = square_offsets();
    assert(se.len() == 8);
    assert(se[0] == (-1i32, -1i32) && se[7] == (1i32, 1i32));
    assert(se[1] == (-1i32, 0i32) && se[6] == (1i32, 0i32));
    assert(se[2] == (-1i32, 1i32) && se[5] == (1i32, -1i32));
    assert(se[3] == (0i32, -1i32) && se[4] == (0i32, 1i32));
    assert forall|k: int| 0 <= k < se.len() implies exists|k2: int|
        0 <= k2 < se.len() && se[k2].0 == -(#[trigger] se[k]).0 && se[k2].1 == -se[k].1 by {
        let k2 = 7 - k;
        assert(se[k2].0 == -se[k].0 && se[k2].1 == -se[k].1);
    }
}

/// Symmetric offsets give a symmetric reach relation.
proof fn lemma_reach_symmetric(w: int, h: int, se: Seq<(i32, i32)>)
    requires
        w >= 0,
        h >= 0,
        symmetric_offsets(se),
    ensures
        symmetric(reach(w, h, se)),
{
    let nb = reach(w, h, se);
    assert forall|x: int, y: int| #[trigger] nb(x, y) implies nb(y, x) by {
        let k = choose|k: int| 0 <= k < se.len() && #[trigger] probe(w, h, x / w, x % w, se[k]) == Some(y);
        lemma_row_col(x, w, h);
        lemma_probe_on_grid(w, h, x / w, x % w, se[k]);
        let k2 = choose|k2: int|
            0 <= k2 < se.len() && se[k2].0 == -se[k].0 && se[k2].1 == -se[k].1;
        assert(probe(w, h, y / w, y % w, se[k2]) == Some(x));
    }
}

/// The +1 cells of an erosion are the set erosion of the +1 cells.
proof fn lemma_erosion_ones(g: Seq<i8>, w: int, h: int, se: Seq<(i32, i32)>)
    requires
        w >= 0,
        h >= 0,
        w * h <= g.len(),
    ensures
        ones(erosion_spec(g, w, h, se), w, h) == erode_set(ones(g, w, h), reach(w, h, se), inside(w, h, se)),
{
    let e = erosion_spec(g, w, h, se);
    let s = ones(g, w, h);
    let nb = reach(w, h, se);
    let f = inside(w, h, se);
    assert forall|x: int| #[trigger] ones(e, w, h)(x) == erode_set(s, nb, f)(x) by {
        if 0 <= x < w * h && g[x] == 1 {
            lemma_row_col(x, w, h);
            if all_lit(g, w, h, se, x) {
                assert forall|k: int| 0 <= k < se.len() implies #[trigger] probe(w, h, x / w, x % w, se[k]) is Some by {
                    assert(lit(g, w, h, x, se[k]));
                }
                assert forall|y: int| #[trigger] nb(x, y) implies s(y) by {
                    let k = choose|k: int| 0 <= k < se.len() && #[trigger] probe(w, h, x / w, x % w, se[k]) == Some(y);
                    assert(lit(g, w, h, x, se[k]));
                    lemma_probe_on_grid(w, h, x / w, x % w, se[k]);
                }
            } else {
                let k = choose|k: int| 0 <= k < se.len() && !#[trigger] lit(g, w, h, x, se[k]);
                if let Some(y) = probe(w, h, x / w, x % w, se[k]) {
                    assert(nb(x, y) && !s(y));
                } else {
                    assert(!f(x));
                }
            }
        }
    }
    assert(ones(e, w, h) =~= erode_set(s, nb, f));
}

/// The +1 cells of a dilation are the set dilation of the +1 cells.
proof fn lemma_dilation_ones(g: Seq<i8>, w: int, h: int, se: Seq<(i32, i32)>)
    requires
        w >= 0,
        h >= 0,
        w * h <= g.len(),
    ensures
        ones(dilation_spec(g, w, h, se), w, h) == dilate_set(ones(g, w, h), reach(w, h, se)),
{
    let d = dilation_spec(g, w, h, se);
    let s = ones(g, w, h);
    let nb = reach(w, h, se);
    assert forall|x: int| #[trigger] ones(d, w, h)(x) == dilate_set(s, nb)(x) by {
        if 0 <= x < w * h && g[x] != 1 {
            lemma_row_col(x, w, h);
            if any_lit(g, w, h, se, x) {
                let k = choose|k: int| 0 <= k < se.len() && #[trigger] lit(g, w, h, x, se[k]);
                let y = probe(w, h, x / w, x % w, se[k])->Some_0;
                lemma_probe_on_grid(w, h, x / w, x % w, se[k]);
                assert(nb(x, y) && s(y));
            }
            if dilate_set(s, nb)(x) {
                let y = choose|y: int| #[trigger] nb(x, y) && s(y);
                let k = choose|k: int| 0 <= k < se.len() && #[trigger] probe(w, h, x / w, x % w, se[k]) == Some(y);
                assert(lit(g, w, h, x, se[k]));
            }
        }
        if dilate_set(s, nb)(x) && !s(x) {
            let y = choose|y: int| #[trigger] nb(x, y) && s(y);
            assert(0 <= x < w * h);
        }
    }
    assert(ones(d, w, h) =~= dilate_set(s, nb));
}

/// Erosion only turns +1 cells into 0 and dilation only turns cells into
/// +1, both on the grid; both keep the slice's length.
pub proof fn lemma_erosion_shrinks_dilation_grows(g: Seq<i8>, w: int, h: int, se: Seq<(i32, i32)>)
    ensures
        erosion_spec(g, w, h, se).len() == g.len(),
        dilation_spec(g, w, h, se).len() == g.len(),
        forall|i: int|
            0 <= i < g.len() && #[trigger] erosion_spec(g, w, h, se)[i] != g[i] ==> 0 <= i < w * h
                && g[i] == 1 && erosion_spec(g, w, h, se)[i] == 0,
        forall|i: int|
            0 <= i < g.len() && #[trigger] dilation_spec(g, w, h, se)[i] != g[i] ==> 0 <= i < w
                * h && dilation_spec(g, w, h, se)[i] == 1,
        forall|i: int| 0 <= i < g.len() && g[i] == 1 ==> #[trigger] dilation_spec(g, w, h, se)[i] == 1,
{
}

/// With symmetric offsets, the top hat is 1 exactly on the +1 cells that
/// opening removes and 0 everywhere else; its differences always fit `i8`.
pub proof fn lemma_top_hat_marks_removed(g: Seq<i8>, w: int, h: int, se: Seq<(i32, i32)>)
    requires
        w >= 0,
        h >= 0,
        w * h <= g.len(),
        symmetric_offsets(se),
    ensures
        difference_fits(g, opening_spec(g, w, h, se)),
        forall|i: int|
            0 <= i < g.len() ==> #[trigger] clamped_difference(g, opening_spec(g, w, h, se))[i] == (
            if g[i] == 1 && opening_spec(g, w, h, se)[i] != 1 {
                1i8
            } else {
                0i8
            }),
{
    let e = erosion_spec(g, w, h, se);
    let o = opening_spec(g, w, h, se);
    lemma_opening_removes_only_ones(g, w, h, se);
    assert forall|i: int| 0 <= i < g.len() && g[i] == 1 && o[i] != 1 implies o[i] == 0 by {
        assert(o[i] == e[i]);
    }
    assert forall|i: int| 0 <= i < g.len() implies i8::MIN <= #[trigger] g[i] - o[i] <= i8::MAX by {
        if g[i] == 1 && o[i] != 1 {
            assert(o[i] == 0);
        }
    }
    assert forall|i: int| 0 <= i < g.len() implies #[trigger] clamped_difference(g, o)[i] == (
    if g[i] == 1 && o[i] != 1 {
        1i8
    } else {
        0i8
    }) by {
        if g[i] == 1 && o[i] != 1 {
            assert(o[i] == 0);
        }
    }
}

/// With symmetric offsets, opening is idempotent: opening an opened grid
/// changes nothing.
pub proof fn lemma_opening_idempotent(g: Seq<i8>, w: int, h: int, se: Seq<(i32, i32)>)
    requires
        w >= 0,
        h >= 0,
        w * h <= g.len(),
        symmetric_offsets(se),
    ensures
        opening_spec(opening_spec(g, w, h, se), w, h, se) == opening_spec(g, w, h, se),
{
    let nb = reach(w, h, se);
    let f = inside(w, h, se);
    let e = erosion_spec(g, w, h, se);
    let o = dilation_spec(e, w, h, se);
    let e2 = erosion_spec(o, w, h, se);
    let o2 = dilation_spec(e2, w, h, se);
    lemma_reach_symmetric(w, h, se);
    lemma_erosion_ones(g, w, h, se);
    lemma_dilation_ones(e, w, h, se);
    lemma_erosion_ones(o, w, h, se);
    lemma_dilation_ones(e2, w, h, se);
    lemma_open_set_idempotent(ones(g, w, h), nb, f);
    assert(ones(o2, w, h) == ones(o, w, h));
    assert forall|x: int| 0 <= x < g.len() implies o2[x] == o[x] by {
        if 0 <= x < w * h {
            if o[x] == 1 {
                assert(ones(o, w, h)(x));
                assert(ones(o2, w, h)(x));
            } else {
                assert(!ones(o2, w, h)(x));
            }
        }
    }
    assert(o2 =~= o);
}

/// With symmetric offsets, closing is idempotent: closing a closed grid
/// changes nothing.
pub proof fn lemma_closing_idempotent(g: Seq<i8>, w: int, h: int, se: Seq<(i32, i32)>)
    requires
        w >= 0,
        h >= 0,
        w * h <= g.len(),
        symmetric_offsets(se),
    ensures
        closing_spec(closing_spec(g, w, h, se), w, h, se) == closing_spec(g, w, h, se),
{
    let nb = reach(w, h, se);
    let f = inside(w, h, se);
    let d = dilation_spec(g, w, h, se);
    let c = erosion_spec(d, w, h, se);
    let d2 = dilation_spec(c, w, h, se);
    let c2 = erosion_spec(d2, w, h, se);
    lemma_reach_symmetric(w, h, se);
    lemma_dilation_ones(g, w, h, se);
    lemma_erosion_ones(d, w, h, se);
    lemma_dilation_ones(c, w, h, se);
    lemma_erosion_ones(d2, w, h, se);
    lemma_close_set_idempotent(ones(g, w, h), nb, f);
    lemma_opening_shrinks(dilate_set(ones(g, w, h), nb), nb, f);
    assert(ones(c2, w, h) == ones(c, w, h));
    assert forall|x: int| 0 <= x < g.len() implies c2[x] == c[x] by {
        if 0 <= x < w * h {
            if c[x] == 1 {
                assert(ones(c, w, h)(x));
                assert(ones(c2, w, h)(x));
            } else {
                assert(!ones(c2, w, h)(x));
                if d2[x] == 1 {
                    assert(ones(d2, w, h)(x));
                    assert(ones(d, w, h)(x));
                }
            }
        }
    }
    assert(c2 =~= c);
}

/// With symmetric offsets, opening only removes +1 cells: every +1 cell of
/// the result was +1, and every other cell is unchanged.
pub proof fn lemma_opening_removes_only_ones(g: Seq<i8>, w: int, h: int, se: Seq<(i32, i32)>)
    requires
        w >= 0,
        h >= 0,
        w * h <= g.len(),
        symmetric_offsets(se),
    ensures
        opening_spec(g, w, h, se).len() == g.len(),
        forall|i: int|
            0 <= i < g.len() && #[trigger] opening_spec(g, w, h, se)[i] == 1 ==> g[i] == 1,
        forall|i: int|
            0 <= i < g.len() && g[i] != 1 ==> #[trigger] opening_spec(g, w, h, se)[i] == g[i],
{
    let e = erosion_spec(g, w, h, se);
    let o = dilation_spec(e, w, h, se);
    lemma_reach_symmetric(w, h, se);
    lemma_erosion_ones(g, w, h, se);
    lemma_dilation_ones(e, w, h, se);
    lemma_opening_shrinks(ones(g, w, h), reach(w, h, se), inside(w, h, se));
    assert forall|i: int| 0 <= i < g.len() && #[trigger] o[i] == 1 implies g[i] == 1 by {
        if 0 <= i < w * h {
            assert(ones(o, w, h)(i));
        }
    }
    assert forall|i: int| 0 <= i < g.len() && g[i] != 1 implies #[trigger] o[i] == g[i] by {
        if 0 <= i < w * h && o[i] == 1 {
            assert(ones(o, w, h)(i));
        }
    }
}

} // verus!
