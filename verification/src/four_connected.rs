//! Morphology of one target value on a grid stored row by row, with the
//! 4-connected (von Neumann) neighbourhood. Cells off the grid are ignored.
use vstd::prelude::*;
use vstd::arithmetic::div_mod::lemma_fundamental_div_mod;
use vstd::arithmetic::div_mod::lemma_fundamental_div_mod_converse;
use crate::cells::{copy_cells, lemma_occurrences_shrink, lemma_only_leaves_trans, occurrences, only_leaves};
use crate::thinning::{
    joined, keeps_neighbours_joined, lemma_joined_more_targets, lemma_joined_self,
    lemma_joined_step, lemma_joined_survives_removal, lemma_joined_trans, neighbours_stay_joined,
    targets_countable,
};
use crate::lattice::{
    dilate_set, erode_set, lemma_close_set_idempotent, lemma_open_set_idempotent,
    lemma_opening_shrinks, symmetric,
};

verus! {

/// Cells `i` and `j` of a grid of `len` cells and width `w` share an edge.
pub open spec fn adjacent4(len: int, w: int, i: int, j: int) -> bool {
    &&& 0 <= i < len
    &&& 0 <= j < len
    &&& (j == i - w || j == i + w || (j == i - 1 && i % w != 0) || (j == i + 1 && j % w != 0))
}

/// Every 4-neighbour of cell `i` holds `t`.
pub open spec fn surrounded(g: Seq<i8>, w: int, t: i8, i: int) -> bool {
    forall|j: int| #[trigger] adjacent4(g.len() as int, w, i, j) ==> g[j] == t
}

/// Some 4-neighbour of cell `i` holds `t`.
pub open spec fn touches(g: Seq<i8>, w: int, t: i8, i: int) -> bool {
    exists|j: int| #[trigger] adjacent4(g.len() as int, w, i, j) && g[j] == t
}

/// Some 4-neighbour of cell `i` holds a value other than `t`.
pub open spec fn touches_other(g: Seq<i8>, w: int, t: i8, i: int) -> bool {
    exists|j: int| #[trigger] adjacent4(g.len() as int, w, i, j) && g[j] != t
}

/// Erosion: a target cell stays only if all its 4-neighbours are target,
/// else it becomes 0; other cells are unchanged.
pub open spec fn erode_spec(g: Seq<i8>, w: int, t: i8) -> Seq<i8> {
    Seq::new(
        g.len(),
        |i: int|
            if g[i] != t {
                g[i]
            } else if surrounded(g, w, t, i) {
                t
            } else {
                0i8
            },
    )
}

/// Dilation: a cell becomes target if it or some 4-neighbour is target;
/// other cells are unchanged.
pub open spec fn dilate_spec(g: Seq<i8>, w: int, t: i8) -> Seq<i8> {
    Seq::new(g.len(), |i: int| if g[i] == t || touches(g, w, t, i) { t } else { g[i] })
}

/// Opening: erosion followed by dilation.
pub open spec fn opening_spec(g: Seq<i8>, w: int, t: i8) -> Seq<i8> {
    dilate_spec(erode_spec(g, w, t), w, t)
}

/// Closing: dilation followed by erosion.
pub open spec fn closing_spec(g: Seq<i8>, w: int, t: i8) -> Seq<i8> {
    erode_spec(dilate_spec(g, w, t), w, t)
}

/// The neighbour indices of cell `i` in the order up, left, right, down.
/// When the last row is short, the entry right of its last cell is `len`,
/// one past the grid.
pub open spec fn neighbor_list(i: int, w: int, len: int) -> Seq<usize> {
    let s0: Seq<usize> = Seq::empty();
    let s1 = if i >= w { s0.push((i - w) as usize) } else { s0 };
    let s2 = if i % w > 0 { s1.push((i - 1) as usize) } else { s1 };
    let s3 = if i % w + 1 < w { s2.push((i + 1) as usize) } else { s2 };
    if i + w < len { s3.push((i + w) as usize) } else { s3 }
}

/// The cell right of `i` would be one past the last cell: the last row is
/// short and `i` ends it.
pub open spec fn right_missing(len: int, w: int, i: int) -> bool {
    i % w + 1 < w && i + 1 >= len
}

/// The neighbour list of cell `i` can be formed, and scanning it in order for a cell that holds `t` (when `equal`) or another
/// value (otherwise), stopping at the first one found, never reaches past
/// the last cell.
pub open spec fn scan_safe(g: Seq<i8>, w: int, t: i8, i: int, equal: bool) -> bool {
    &&& w > 0
    &&& !(right_missing(g.len() as int, w, i) && (i >= w ==> (g[i - w] == t) != equal) && (i % w
        > 0 ==> (g[i - 1] == t) != equal))
}

/// The neighbour list of cell `i` can be formed and every entry is a cell of
/// the grid.
pub open spec fn count_safe(len: int, w: int, i: int) -> bool {
    w > 0 && !right_missing(len, w, i)
}

/// Erosion only reads cells of the grid: every target cell can be scanned
/// for a non-target neighbour.
pub open spec fn erode_defined(g: Seq<i8>, w: int, t: i8) -> bool {
    forall|i: int| 0 <= i < g.len() && g[i] == t ==> #[trigger] scan_safe(g, w, t, i, false)
}

/// Dilation only reads cells of the grid: every other cell can be scanned
/// for a target neighbour.
pub open spec fn dilate_defined(g: Seq<i8>, w: int, t: i8) -> bool {
    forall|i: int| 0 <= i < g.len() && g[i] != t ==> #[trigger] scan_safe(g, w, t, i, true)
}

/// `len` cells form full rows of `width` cells.
pub open spec fn is_grid(len: int, width: int) -> bool {
    width > 0 && len % width == 0
}

/// Stepping right within a row moves the column by one; a row's last cell
/// is followed by the start of the next row.
pub(crate) proof fn lemma_next_column(i: int, w: int)
    requires
        i >= 0,
        w > 0,
    ensures
        i % w + 1 < w ==> (i + 1) % w == i % w + 1,
        i % w + 1 >= w ==> (i + 1) % w == 0,
{
    lemma_fundamental_div_mod(i, w);
    let q = i / w;
    let r = i % w;
    assert(w * q == q * w && w * (q + 1) == (q + 1) * w && (q + 1) * w == q * w + w)
        by (nonlinear_arith);
    if r + 1 < w {
        lemma_fundamental_div_mod_converse(i + 1, w, q, r + 1);
    } else {
        lemma_fundamental_div_mod_converse(i + 1, w, q + 1, 0);
    }
}

/// A full grid with at least one cell is at least one row long, and no cell
/// of it misses its right neighbour.
proof fn lemma_full_rows(len: int, w: int, i: int)
    requires
        is_grid(len, w),
        0 <= i < len,
    ensures
        w <= len,
        !right_missing(len, w, i),
{
    lemma_fundamental_div_mod(len, w);
    let q = len / w;
    if q <= 0 {
        assert(w * q <= 0) by (nonlinear_arith)
            requires
                q <= 0,
                w > 0,
        ;
    } else {
        assert(w * q >= w) by (nonlinear_arith)
            requires
                q >= 1,
                w > 0,
        ;
    }
    lemma_next_column(i, w);
}

/// The neighbour list holds the 4-neighbours of `i`, and at most one entry
/// past the grid: the right one, after the up and left entries.
pub(crate) proof fn lemma_neighbor_list(i: int, w: int, len: int)
    requires
        w > 0,
        0 <= i < len,
        len <= usize::MAX,
    ensures
        forall|k: int|
            0 <= k < neighbor_list(i, w, len).len() && neighbor_list(i, w, len)[k] < len
                ==> adjacent4(len, w, i, #[trigger] neighbor_list(i, w, len)[k] as int),
        forall|j: int|
            #[trigger] adjacent4(len, w, i, j) ==> neighbor_list(i, w, len).contains(j as usize),
        forall|k: int|
            0 <= k < neighbor_list(i, w, len).len() && #[trigger] neighbor_list(i, w, len)[k]
                >= len ==> {
                &&& right_missing(len, w, i)
                &&& neighbor_list(i, w, len)[k] == i + 1
                &&& (i >= w ==> 0 < k && neighbor_list(i, w, len)[0] == i - w)
                &&& (i % w > 0 ==> 0 < k && neighbor_list(i, w, len)[k - 1] == i - 1)
            },
{
    lemma_next_column(i, w);
    assert(i % w > 0 ==> i > 0) by {
        if i == 0 {
            assert(0int % w == 0) by (nonlinear_arith)
                requires
                    w > 0,
            ;
        }
    }
    let l = neighbor_list(i, w, len);
    let s0: Seq<usize> = Seq::empty();
    let s1 = if i >= w { s0.push((i - w) as usize) } else { s0 };
    let s2 = if i % w > 0 { s1.push((i - 1) as usize) } else { s1 };
    let s3 = if i % w + 1 < w { s2.push((i + 1) as usize) } else { s2 };
    assert(forall|k: int| 0 <= k < s1.len() ==> adjacent4(len, w, i, #[trigger] s1[k] as int));
    assert(forall|k: int| 0 <= k < s2.len() ==> adjacent4(len, w, i, #[trigger] s2[k] as int));
    assert(forall|k: int|
        0 <= k < s3.len() && s3[k] < len ==> adjacent4(len, w, i, #[trigger] s3[k] as int));
    assert(forall|k: int|
        0 <= k < l.len() && l[k] < len ==> adjacent4(len, w, i, #[trigger] l[k] as int));
    assert forall|j: int| #[trigger] adjacent4(len, w, i, j) implies l.contains(j as usize) by {
        if j == i - w {
            assert(i >= w);
            assert(l[0] == j as usize);
        } else if j == i + w {
            assert(l[l.len() - 1] == j as usize);
        } else if j == i - 1 && i % w != 0 {
            let k: int = if i >= w { 1 } else { 0 };
            assert(l[k] == j as usize);
        } else {
            assert(j == i + 1 && j % w != 0);
            assert(i % w + 1 < w);
            let k: int = (if i >= w { 1int } else { 0int }) + (if i % w > 0 { 1int } else { 0int });
            assert(l[k] == j as usize);
        }
    }
    assert forall|k: int| 0 <= k < l.len() && #[trigger] l[k] >= len implies {
        &&& right_missing(len, w, i)
        &&& l[k] == i + 1
        &&& (i >= w ==> 0 < k && l[0] == i - w)
        &&& (i % w > 0 ==> 0 < k && l[k - 1] == i - 1)
    } by {
        assert(k == s3.len() - 1);
    }
}

/// Scanning a neighbour list under `scan_safe` finds a hit before any entry
/// past the grid.
proof fn lemma_scan_stays_on_grid(g: Seq<i8>, w: int, t: i8, i: int, equal: bool)
    requires
        scan_safe(g, w, t, i, equal),
        0 <= i < g.len(),
        g.len() <= usize::MAX,
    ensures
        forall|k: int|
            0 <= k < neighbor_list(i, w, g.len() as int).len() && #[trigger] neighbor_list(
                i,
                w,
                g.len() as int,
            )[k] >= g.len() ==> exists|m: int|
                0 <= m < k && neighbor_list(i, w, g.len() as int)[m] < g.len() && (g[
                #[trigger] neighbor_list(i, w, g.len() as int)[m] as int] == t) == equal,
{
    let len = g.len() as int;
    let l = neighbor_list(i, w, len);
    lemma_neighbor_list(i, w, len);
    assert forall|k: int| 0 <= k < l.len() && #[trigger] l[k] >= len implies exists|m: int|
        0 <= m < k && l[m] < len && (g[#[trigger] l[m] as int] == t) == equal by {
        if i >= w && (g[i - w] == t) == equal {
            assert(l[0] < len && (g[l[0] as int] == t) == equal);
        } else {
            assert(i % w > 0 && (g[i - 1] == t) == equal);
            assert(l[k - 1] < len && (g[l[k - 1] as int] == t) == equal);
        }
    }
}

/// The 4-neighbours of cell `idx`, in the order up, left, right, down.
pub(crate) fn neighbors4(idx: usize, width: usize, len: usize) -> (ns: Vec<usize>)
    requires
        width > 0,
        idx < len,
    ensures
        ns@ == neighbor_list(idx as int, width as int, len as int),
{
    proof {
        lemma_next_column(idx as int, width as int);
    }
    let mut ns: Vec<usize> = Vec::new();
    if idx >= width {
        ns.push(idx - width);
    }
    if idx % width > 0 {
        assert(idx > 0) by {
            if idx == 0 {
                assert(0usize % width == 0);
            }
        }
        ns.push(idx - 1);
    }
    if idx % width + 1 < width {
        ns.push(idx + 1);
    }
    // `idx + width < len`, written so that it cannot overflow
    if width < len - idx {
        ns.push(idx + width);
    }
    assert(ns@ =~= neighbor_list(idx as int, width as int, len as int));
    ns
}

/// How many of the listed cells hold `t`.
pub open spec fn count_hits(g: Seq<i8>, ns: Seq<usize>, t: i8) -> int
    decreases ns.len(),
{
    if ns.len() == 0 {
        0
    } else {
        count_hits(g, ns.drop_last(), t) + if g[ns.last() as int] == t {
            1int
        } else {
            0int
        }
    }
}

/// The quantified neighbourhood predicates, read off the neighbour list.
pub(crate) proof fn lemma_list_quantifiers(g: Seq<i8>, w: int, t: i8, i: int)
    requires
        w > 0,
        0 <= i < g.len(),
        g.len() <= usize::MAX,
    ensures
        surrounded(g, w, t, i) <==> !(exists|k: int|
            0 <= k < neighbor_list(i, w, g.len() as int).len() && neighbor_list(
                i,
                w,
                g.len() as int,
            )[k] < g.len() && (g[#[trigger] neighbor_list(i, w, g.len() as int)[k] as int] == t)
                == false),
        touches(g, w, t, i) <==> (exists|k: int|
            0 <= k < neighbor_list(i, w, g.len() as int).len() && neighbor_list(
                i,
                w,
                g.len() as int,
            )[k] < g.len() && (g[#[trigger] neighbor_list(i, w, g.len() as int)[k] as int] == t)
                == true),
        touches_other(g, w, t, i) <==> (exists|k: int|
            0 <= k < neighbor_list(i, w, g.len() as int).len() && neighbor_list(
                i,
                w,
                g.len() as int,
            )[k] < g.len() && (g[#[trigger] neighbor_list(i, w, g.len() as int)[k] as int] == t)
                == false),
{
    let len = g.len() as int;
    let l = neighbor_list(i, w, len);
    lemma_neighbor_list(i, w, len);
    if surrounded(g, w, t, i) {
        assert forall|k: int| 0 <= k < l.len() && l[k] < len implies g[#[trigger] l[k] as int]
            == t by {
            assert(adjacent4(len, w, i, l[k] as int));
        }
    } else {
        let j = choose|j: int| #[trigger] adjacent4(len, w, i, j) && g[j] != t;
        assert(l.contains(j as usize));
        let k = choose|k: int| 0 <= k < l.len() && l[k] == j as usize;
        assert(l[k] < len && g[l[k] as int] != t);
    }
    if touches(g, w, t, i) {
        let j = choose|j: int| #[trigger] adjacent4(len, w, i, j) && g[j] == t;
        assert(l.contains(j as usize));
        let k = choose|k: int| 0 <= k < l.len() && l[k] == j as usize;
        assert(l[k] < len && g[l[k] as int] == t);
    }
    if exists|k: int| 0 <= k < l.len() && l[k] < len && (g[#[trigger] l[k] as int] == t) == true {
        let k = choose|k: int|
            0 <= k < l.len() && l[k] < len && (g[#[trigger] l[k] as int] == t) == true;
        assert(adjacent4(len, w, i, l[k] as int));
    }
    if touches_other(g, w, t, i) {
        let j = choose|j: int| #[trigger] adjacent4(len, w, i, j) && g[j] != t;
        assert(l.contains(j as usize));
        let k = choose|k: int| 0 <= k < l.len() && l[k] == j as usize;
        assert(l[k] < len && g[l[k] as int] != t);
    }
    if exists|k: int| 0 <= k < l.len() && l[k] < len && (g[#[trigger] l[k] as int] == t) == false {
        let k = choose|k: int|
            0 <= k < l.len() && l[k] < len && (g[#[trigger] l[k] as int] == t) == false;
        assert(adjacent4(len, w, i, l[k] as int));
    }
}

/// Scans the listed cells in order for one that holds `t` (when `equal`) or
/// holds another value (when not `equal`), stopping at the first found.
pub(crate) fn scan_cells(grid: &[i8], ns: &Vec<usize>, t: i8, equal: bool) -> (found: bool)
    requires
        forall|k: int|
            0 <= k < ns.len() && #[trigger] ns[k] >= grid.len() ==> exists|m: int|
                0 <= m < k && ns[m] < grid.len() && (grid[#[trigger] ns[m] as int] == t) == equal,
    ensures
        found == exists|k: int|
            0 <= k < ns.len() && ns[k] < grid.len() && (grid[#[trigger] ns[k] as int] == t)
                == equal,
{
    let mut found = false;
    let mut k: usize = 0;
    while k < ns.len() && !found
        invariant
            k <= ns.len(),
            forall|j: int|
                0 <= j < ns.len() && #[trigger] ns[j] >= grid.len() ==> exists|m: int|
                    0 <= m < j && ns[m] < grid.len() && (grid[#[trigger] ns[m] as int] == t)
                        == equal,
            found == exists|m: int|
                0 <= m < k && ns[m] < grid.len() && (grid[#[trigger] ns[m] as int] == t) == equal,
        decreases ns.len() - k,
    {
        if ns[k] >= grid.len() {
            let ghost m = choose|m: int|
                0 <= m < k && ns[m] < grid.len() && (grid[#[trigger] ns[m] as int] == t) == equal;
            assert(false);
        }
        if (grid[ns[k]] == t) == equal {
            found = true;
        }
        k += 1;
    }
    found
}

/// How many listed cells hold `t`.
pub(crate) fn count_cells(grid: &[i8], ns: &Vec<usize>, t: i8) -> (n: usize)
    requires
        forall|k: int| 0 <= k < ns.len() ==> #[trigger] ns[k] < grid.len(),
    ensures
        n == count_hits(grid@, ns@, t),
{
    let mut n: usize = 0;
    let mut k: usize = 0;
    while k < ns.len()
        invariant
            k <= ns.len(),
            forall|m: int| 0 <= m < ns.len() ==> #[trigger] ns[m] < grid.len(),
            n == count_hits(grid@, ns@.take(k as int), t),
            n <= k,
        decreases ns.len() - k,
    {
        assert(ns@.take(k + 1).drop_last() =~= ns@.take(k as int));
        if grid[ns[k]] == t {
            n += 1;
        }
        k += 1;
    }
    assert(ns@.take(ns.len() as int) =~= ns@);
    n
}

/// Shrink regions of `target` value: a cell stays target only if all its
/// 4-neighbours are target, else it becomes 0; other cells are unchanged.
pub fn erode(grid: &[i8], width: usize, target: i8) -> (eroded: Vec<i8>)
    requires
        erode_defined(grid@, width as int, target),
    ensures
        eroded@ == erode_spec(grid@, width as int, target),
{
    let len = grid.len();
    let mut out: Vec<i8> = Vec::new();
    let mut i: usize = 0;
    while i < len
        invariant
            i <= len,
            len == grid.len(),
            erode_defined(grid@, width as int, target),
            out@.len() == i,
            forall|k: int| 0 <= k < i ==> out@[k] == erode_spec(grid@, width as int, target)[k],
        decreases len - i,
    {
        let v = grid[i];
        if v != target {
            out.push(v);
        } else {
            assert(scan_safe(grid@, width as int, target, i as int, false));
            let ns = neighbors4(i, width, len);
            proof {
                lemma_scan_stays_on_grid(grid@, width as int, target, i as int, false);
                lemma_list_quantifiers(grid@, width as int, target, i as int);
            }
            if scan_cells(grid, &ns, target, false) {
                out.push(0);
            } else {
                out.push(target);
            }
        }
        i += 1;
    }
    assert(out@ =~= erode_spec(grid@, width as int, target));
    out
}

/// Grow regions of `target` value: a cell becomes target if any 4-neighbour
/// is target; other cells are unchanged.
pub fn dilate(grid: &[i8], width: usize, target: i8) -> (dilated: Vec<i8>)
    requires
        dilate_defined(grid@, width as int, target),
    ensures
        dilated@ == dilate_spec(grid@, width as int, target),
{
    let len = grid.len();
    let mut out: Vec<i8> = Vec::new();
    let mut i: usize = 0;
    while i < len
        invariant
            i <= len,
            len == grid.len(),
            dilate_defined(grid@, width as int, target),
            out@.len() == i,
            forall|k: int| 0 <= k < i ==> out@[k] == dilate_spec(grid@, width as int, target)[k],
        decreases len - i,
    {
        let v = grid[i];
        if v == target {
            out.push(target);
        } else {
            assert(scan_safe(grid@, width as int, target, i as int, true));
            let ns = neighbors4(i, width, len);
            proof {
                lemma_scan_stays_on_grid(grid@, width as int, target, i as int, true);
                lemma_list_quantifiers(grid@, width as int, target, i as int);
            }
            if scan_cells(grid, &ns, target, true) {
                out.push(target);
            } else {
                out.push(v);
            }
        }
        i += 1;
    }
    assert(out@ =~= dilate_spec(grid@, width as int, target));
    out
}

/// Erode then dilate: removes small noise.
pub fn opening(grid: &[i8], width: usize, target: i8) -> (opened: Vec<i8>)
    requires
        erode_defined(grid@, width as int, target),
        dilate_defined(erode_spec(grid@, width as int, target), width as int, target),
    ensures
        opened@ == opening_spec(grid@, width as int, target),
{
    let eroded = erode(grid, width, target);
    dilate(eroded.as_slice(), width, target)
}

/// Dilate then erode: fills small gaps.
pub fn closing(grid: &[i8], width: usize, target: i8) -> (closed: Vec<i8>)
    requires
        dilate_defined(grid@, width as int, target),
        erode_defined(dilate_spec(grid@, width as int, target), width as int, target),
    ensures
        closed@ == closing_spec(grid@, width as int, target),
{
    let dilated = dilate(grid, width, target);
    erode(dilated.as_slice(), width, target)
}

/// Cell `i` lies in the first or last row or column of the grid.
pub open spec fn on_border(len: int, w: int, i: int) -> bool {
    i % w == 0 || i % w + 1 == w || i / w == 0 || i / w + 1 == len / w
}

/// The boundary of the target regions: a target cell stays target when it
/// lies on the grid's border or has a non-target 4-neighbour; every other
/// cell becomes 0.
pub open spec fn boundary_spec(g: Seq<i8>, w: int, t: i8) -> Seq<i8> {
    Seq::new(
        g.len(),
        |i: int|
            if g[i] == t && (on_border(g.len() as int, w, i) || touches_other(g, w, t, i)) {
                t
            } else {
                0i8
            },
    )
}

/// The width is positive and the boundary only reads cells of the grid:
/// every target cell off the border can be scanned for a non-target
/// neighbour.
pub open spec fn boundary_defined(g: Seq<i8>, w: int, t: i8) -> bool {
    &&& w > 0
    &&& forall|i: int|
        0 <= i < g.len() && g[i] == t && !on_border(g.len() as int, w, i) ==> #[trigger] scan_safe(
            g,
            w,
            t,
            i,
            false,
        )
}

/// Extract boundary cells of target regions (target cells with at least one
/// non-target 4-neighbour or off-grid edge).
pub fn boundary(grid: &[i8], width: usize, target: i8) -> (edge: Vec<i8>)
    requires
        boundary_defined(grid@, width as int, target),
    ensures
        edge@ == boundary_spec(grid@, width as int, target),
{
    let len = grid.len();
    let height = len / width;
    let mut out: Vec<i8> = Vec::new();
    let mut i: usize = 0;
    while i < len
        invariant
            i <= len,
            len == grid.len(),
            height == len / width,
            boundary_defined(grid@, width as int, target),
            out@.len() == i,
            forall|k: int|
                0 <= k < i ==> out@[k] == boundary_spec(grid@, width as int, target)[k],
        decreases len - i,
    {
        let v = grid[i];
        if v != target {
            out.push(0);
        } else {
            let x = i % width;
            let y = i / width;
            // off-grid neighbours count as non-target
            if x == 0 || x + 1 == width || y == 0 || y + 1 == height {
                out.push(target);
            } else {
                assert(scan_safe(grid@, width as int, target, i as int, false));
                let ns = neighbors4(i, width, len);
                proof {
                    lemma_scan_stays_on_grid(grid@, width as int, target, i as int, false);
                    lemma_list_quantifiers(grid@, width as int, target, i as int);
                }
                if scan_cells(grid, &ns, target, false) {
                    out.push(target);
                } else {
                    out.push(0);
                }
            }
        }
        i += 1;
    }
    assert(out@ =~= boundary_spec(grid@, width as int, target));
    out
}

/// How many 4-neighbours of cell `i` hold `t`.
pub open spec fn target_neighbours(g: Seq<i8>, w: int, t: i8, i: int) -> int {
    count_hits(g, neighbor_list(i, w, g.len() as int), t)
}

/// A target cell with more than two target 4-neighbours.
pub open spec fn thinnable(g: Seq<i8>, w: int, t: i8, i: int) -> bool {
    g[i] == t && target_neighbours(g, w, t, i) > 2
}

/// Some cell of the grid is thinnable.
pub open spec fn has_thinnable(g: Seq<i8>, w: int, t: i8) -> bool {
    exists|i: int| 0 <= i < g.len() && #[trigger] thinnable(g, w, t, i)
}

/// A target cell that thinning clears: it is not an endpoint (it has two or
/// more target 4-neighbours), and clearing it keeps every two of them joined.
pub open spec fn removable(c: Seq<i8>, w: int, t: i8, i: int) -> bool {
    c[i] == t && target_neighbours(c, w, t, i) >= 2 && neighbours_stay_joined(c, w, t, i)
}

/// Thinning visits cells `i`, `i + 1`, ... in order and clears each one
/// that is removable when it is visited.
pub open spec fn thin_from(c: Seq<i8>, w: int, t: i8, i: int) -> Seq<i8>
    decreases c.len() - i,
{
    if 0 <= i < c.len() {
        thin_from(if removable(c, w, t, i) { c.update(i, 0) } else { c }, w, t, i + 1)
    } else {
        c
    }
}

/// One thinning pass over every cell in order.
pub open spec fn thin_pass(c: Seq<i8>, w: int, t: i8) -> Seq<i8> {
    thin_from(c, w, t, 0)
}

/// A thinning pass with a nonzero target only clears target cells.
pub proof fn lemma_thin_from_clears(c: Seq<i8>, w: int, t: i8, i: int)
    requires
        t != 0,
    ensures
        thin_from(c, w, t, i).len() == c.len(),
        only_leaves(c, thin_from(c, w, t, i), t),
        forall|k: int|
            0 <= k < c.len() && #[trigger] thin_from(c, w, t, i)[k] != c[k] ==> thin_from(
                c,
                w,
                t,
                i,
            )[k] == 0,
    decreases c.len() - i,
{
    if 0 <= i < c.len() {
        let c1 = if removable(c, w, t, i) { c.update(i, 0) } else { c };
        lemma_thin_from_clears(c1, w, t, i + 1);
        let r = thin_from(c1, w, t, i + 1);
        assert(only_leaves(c, c1, t));
        lemma_only_leaves_trans(c, c1, r, t);
        assert forall|k: int| 0 <= k < c.len() && #[trigger] r[k] != c[k] implies r[k] == 0 by {
            if r[k] == c1[k] {
                assert(c1[k] != c[k]);
            }
        }
    } else {
        assert(only_leaves(c, c, t));
    }
}

/// A thinning pass keeps every two remaining target cells joined when they
/// were joined before it.
pub proof fn lemma_thin_from_keeps_joined(c: Seq<i8>, w: int, t: i8, i: int)
    requires
        t != 0,
        w > 0,
    ensures
        forall|a: int, b: int|
            0 <= a < c.len() && 0 <= b < c.len() && thin_from(c, w, t, i)[a] == t && thin_from(
                c,
                w,
                t,
                i,
            )[b] == t && #[trigger] joined(c, w, t, a, b) ==> joined(
                thin_from(c, w, t, i),
                w,
                t,
                a,
                b,
            ),
    decreases c.len() - i,
{
    if 0 <= i < c.len() {
        let c1 = if removable(c, w, t, i) { c.update(i, 0) } else { c };
        lemma_thin_from_keeps_joined(c1, w, t, i + 1);
        lemma_thin_from_clears(c1, w, t, i + 1);
        let r = thin_from(c1, w, t, i + 1);
        assert forall|a: int, b: int|
            0 <= a < c.len() && 0 <= b < c.len() && r[a] == t && r[b] == t && #[trigger] joined(
                c,
                w,
                t,
                a,
                b,
            ) implies joined(r, w, t, a, b) by {
            assert(c1[a] == t && c1[b] == t);
            if removable(c, w, t, i) {
                lemma_joined_survives_removal(c, w, t, i, a, b);
            }
            assert(joined(c1, w, t, a, b));
        }
    }
}

/// Thinning passes repeated until a pass changes nothing.
pub open spec fn skeleton_spec(g: Seq<i8>, w: int, t: i8) -> Seq<i8>
    decreases occurrences(g, t),
{
    if t != 0 && thin_pass(g, w, t) != g {
        proof {
            lemma_thin_from_clears(g, w, t, 0);
            lemma_occurrences_shrink(g, thin_pass(g, w, t), t);
        }
        skeleton_spec(thin_pass(g, w, t), w, t)
    } else {
        g
    }
}

/// The skeleton is reached by clearing target cells only: it has the grid's
/// length, every changed cell was a target cell and became 0, and a further
/// thinning pass, or a further skeletonization, changes nothing.
pub proof fn lemma_skeleton_properties(g: Seq<i8>, w: int, t: i8)
    ensures
        skeleton_spec(g, w, t).len() == g.len(),
        forall|i: int|
            0 <= i < g.len() && #[trigger] skeleton_spec(g, w, t)[i] != g[i] ==> g[i] == t
                && skeleton_spec(g, w, t)[i] == 0,
        t != 0 ==> thin_pass(skeleton_spec(g, w, t), w, t) == skeleton_spec(g, w, t),
        skeleton_spec(skeleton_spec(g, w, t), w, t) == skeleton_spec(g, w, t),
    decreases occurrences(g, t),
{
    if t != 0 && thin_pass(g, w, t) != g {
        let n = thin_pass(g, w, t);
        lemma_thin_from_clears(g, w, t, 0);
        lemma_occurrences_shrink(g, n, t);
        lemma_skeleton_properties(n, w, t);
        let sk = skeleton_spec(g, w, t);
        assert(sk == skeleton_spec(n, w, t));
        assert forall|i: int| 0 <= i < g.len() && #[trigger] sk[i] != g[i] implies g[i] == t
            && sk[i] == 0 by {
            if sk[i] == n[i] {
                assert(n[i] != g[i]);
            } else if n[i] != g[i] {
                assert(n[i] == 0 && g[i] == t);
                assert(n[i] != t);
            }
        }
    }
}

/// A pass that changes nothing met no removable cell.
proof fn lemma_still_pass_removes_nothing(c: Seq<i8>, w: int, t: i8, i: int)
    requires
        t != 0,
        0 <= i,
        thin_from(c, w, t, i) == c,
    ensures
        forall|k: int| i <= k < c.len() ==> !#[trigger] removable(c, w, t, k),
    decreases c.len() - i,
{
    if i < c.len() {
        if removable(c, w, t, i) {
            let c1 = c.update(i, 0);
            lemma_thin_from_clears(c1, w, t, i + 1);
            let r = thin_from(c1, w, t, i + 1);
            if r[i] != c1[i] {
                assert(c1[i] == t);
            }
            assert(r[i] != c[i]);
        }
        lemma_still_pass_removes_nothing(c, w, t, i + 1);
    }
}

/// The skeleton is thin: every target cell left with two or more target
/// 4-neighbours is a cut cell, so clearing it would leave two of its target
/// neighbours no longer joined.
pub proof fn lemma_skeleton_cut_cells(g: Seq<i8>, w: int, t: i8)
    requires
        t != 0,
    ensures
        forall|i: int|
            0 <= i < g.len() && skeleton_spec(g, w, t)[i] == t && #[trigger] target_neighbours(
                skeleton_spec(g, w, t),
                w,
                t,
                i,
            ) >= 2 ==> !neighbours_stay_joined(skeleton_spec(g, w, t), w, t, i),
{
    let s = skeleton_spec(g, w, t);
    lemma_skeleton_properties(g, w, t);
    lemma_still_pass_removes_nothing(s, w, t, 0);
    assert forall|i: int|
        0 <= i < g.len() && s[i] == t && #[trigger] target_neighbours(s, w, t, i) >= 2 implies !neighbours_stay_joined(
        s,
        w,
        t,
        i,
    ) by {
        assert(!removable(s, w, t, i));
    }
}

/// Thinning keeps connectivity: two target cells that remain in the
/// skeleton and were joined by a 4-connected walk of target cells in the
/// grid are still joined by such a walk in the skeleton.
pub proof fn lemma_skeleton_keeps_connections(g: Seq<i8>, w: int, t: i8)
    requires
        t != 0,
        w > 0,
    ensures
        forall|a: int, b: int|
            0 <= a < g.len() && 0 <= b < g.len() && skeleton_spec(g, w, t)[a] == t
                && skeleton_spec(g, w, t)[b] == t && #[trigger] joined(g, w, t, a, b) ==> joined(
                skeleton_spec(g, w, t),
                w,
                t,
                a,
                b,
            ),
    decreases occurrences(g, t),
{
    if thin_pass(g, w, t) != g {
        let n = thin_pass(g, w, t);
        lemma_thin_from_clears(g, w, t, 0);
        lemma_occurrences_shrink(g, n, t);
        lemma_skeleton_keeps_connections(n, w, t);
        lemma_skeleton_properties(n, w, t);
        lemma_thin_from_keeps_joined(g, w, t, 0);
        let sk = skeleton_spec(g, w, t);
        assert(sk == skeleton_spec(n, w, t));
        assert forall|a: int, b: int|
            0 <= a < g.len() && 0 <= b < g.len() && sk[a] == t && sk[b] == t && #[trigger] joined(
                g,
                w,
                t,
                a,
                b,
            ) implies joined(sk, w, t, a, b) by {
            if sk[a] != n[a] {
                assert(sk[a] == 0);
            }
            if sk[b] != n[b] {
                assert(sk[b] == 0);
            }
            assert(n[a] == t && n[b] == t);
            assert(joined(n, w, t, a, b));
        }
    }
}

/// A positive count of hits names a listed cell that holds `t`.
proof fn lemma_count_hits_positive(g: Seq<i8>, ns: Seq<usize>, t: i8)
    requires
        count_hits(g, ns, t) > 0,
    ensures
        exists|k: int| 0 <= k < ns.len() && g[#[trigger] ns[k] as int] == t,
    decreases ns.len(),
{
    if g[ns.last() as int] == t {
        assert(g[ns[ns.len() - 1] as int] == t);
    } else {
        lemma_count_hits_positive(g, ns.drop_last(), t);
        let k = choose|k: int| 0 <= k < ns.drop_last().len() && g[#[trigger] ns.drop_last()[k] as int] == t;
        assert(ns[k] == ns.drop_last()[k]);
    }
}

/// A thinning pass leaves every target region of the grid some cell: each
/// target cell is joined to a target cell that remains.
pub proof fn lemma_thin_from_keeps_regions(c: Seq<i8>, w: int, t: i8, i: int)
    requires
        t != 0,
        targets_countable(c, w, t),
        c.len() <= usize::MAX,
    ensures
        forall|a: int|
            0 <= a < c.len() && #[trigger] c[a] == t ==> exists|b: int|
                0 <= b < c.len() && thin_from(c, w, t, i)[b] == t && joined(c, w, t, a, b),
    decreases c.len() - i,
{
    let len = c.len() as int;
    if 0 <= i < c.len() {
        let c1 = if removable(c, w, t, i) { c.update(i, 0) } else { c };
        assert forall|x: int| 0 <= x < c1.len() && c1[x] == t implies #[trigger] count_safe(
            c1.len() as int,
            w,
            x,
        ) by {
            assert(c[x] == t);
        }
        lemma_thin_from_keeps_regions(c1, w, t, i + 1);
        let r = thin_from(c1, w, t, i + 1);
        assert forall|a: int| 0 <= a < c.len() && #[trigger] c[a] == t implies exists|b: int|
            0 <= b < c.len() && r[b] == t && joined(c, w, t, a, b) by {
            if c1[a] != t {
                // `a == i` was cleared: it has a target neighbour that stays
                assert(a == i && removable(c, w, t, i));
                assert(count_safe(len, w, i));
                lemma_neighbor_list(i, w, len);
                let l = neighbor_list(i, w, len);
                lemma_count_hits_positive(c, l, t);
                let k = choose|k: int| 0 <= k < l.len() && c[#[trigger] l[k] as int] == t;
                let u = l[k] as int;
                assert(u < len);
                assert(adjacent4(len, w, i, u));
                assert(u != i);
                lemma_joined_self(c, w, t, i);
                lemma_joined_step(c, w, t, i, i, u);
                assert(c1[u] == t);
                let b = choose|b: int| 0 <= b < c1.len() && r[b] == t && joined(c1, w, t, u, b);
                lemma_joined_more_targets(c1, c, w, t, u, b);
                lemma_joined_trans(c, w, t, a, u, b);
            } else {
                let b = choose|b: int| 0 <= b < c1.len() && r[b] == t && joined(c1, w, t, a, b);
                lemma_joined_more_targets(c1, c, w, t, a, b);
            }
        }
    } else {
        assert forall|a: int| 0 <= a < c.len() && #[trigger] c[a] == t implies exists|b: int|
            0 <= b < c.len() && thin_from(c, w, t, i)[b] == t && joined(c, w, t, a, b) by {
            lemma_joined_self(c, w, t, a);
        }
    }
}

/// No target region disappears under thinning: every target cell of the
/// grid is joined, by a walk of target cells in the grid, to a target cell
/// of the skeleton.
pub proof fn lemma_skeleton_keeps_regions(g: Seq<i8>, w: int, t: i8)
    requires
        t != 0,
        targets_countable(g, w, t),
        g.len() <= usize::MAX,
    ensures
        forall|a: int|
            0 <= a < g.len() && #[trigger] g[a] == t ==> exists|b: int|
                0 <= b < g.len() && skeleton_spec(g, w, t)[b] == t && joined(g, w, t, a, b),
    decreases occurrences(g, t),
{
    if thin_pass(g, w, t) != g {
        let n = thin_pass(g, w, t);
        lemma_thin_from_clears(g, w, t, 0);
        lemma_occurrences_shrink(g, n, t);
        assert forall|x: int| 0 <= x < n.len() && n[x] == t implies #[trigger] count_safe(
            n.len() as int,
            w,
            x,
        ) by {
            if n[x] != g[x] {
                assert(n[x] == 0);
            }
            assert(g[x] == t);
        }
        lemma_skeleton_keeps_regions(n, w, t);
        lemma_thin_from_keeps_regions(g, w, t, 0);
        let sk = skeleton_spec(g, w, t);
        assert(sk == skeleton_spec(n, w, t));
        assert forall|a: int| 0 <= a < g.len() && #[trigger] g[a] == t implies exists|b: int|
            0 <= b < g.len() && sk[b] == t && joined(g, w, t, a, b) by {
            let m = choose|m: int| 0 <= m < g.len() && n[m] == t && joined(g, w, t, a, m);
            let b = choose|b: int| 0 <= b < n.len() && sk[b] == t && joined(n, w, t, m, b);
            assert forall|x: int| 0 <= x < n.len() && n[x] == t implies #[trigger] g[x] == t by {
                if n[x] != g[x] {
                    assert(n[x] == 0);
                }
            }
            lemma_joined_more_targets(n, g, w, t, m, b);
            lemma_joined_trans(g, w, t, a, m, b);
        }
    } else {
        assert forall|a: int| 0 <= a < g.len() && #[trigger] g[a] == t implies exists|b: int|
            0 <= b < g.len() && skeleton_spec(g, w, t)[b] == t && joined(g, w, t, a, b) by {
            lemma_joined_self(g, w, t, a);
        }
    }
}

/// Thinning only reads cells of the grid and stops: every target cell's
/// neighbour list lies on the grid, and a zero target with a cell of more
/// than two target 4-neighbours, for which thinning would never stop, is
/// excluded.
pub open spec fn skeleton_defined(g: Seq<i8>, w: int, t: i8) -> bool {
    &&& targets_countable(g, w, t)
    &&& t != 0 || !has_thinnable(g, w, t)
}

/// Thin target regions (iterative erosion with connectivity check): cells
/// are visited in order, and a target cell with two or more target
/// 4-neighbours is cleared to 0 when its target neighbours stay connected
/// without it; passes repeat until one clears nothing. What remains keeps
/// every region and its connections, and each remaining target cell is an
/// endpoint (fewer than two target neighbours) or a cut cell, whose removal
/// would split its neighbours.
pub fn skeletonize(grid: &[i8], width: usize, target: i8) -> (skeleton: Vec<i8>)
    requires
        skeleton_defined(grid@, width as int, target),
    ensures
        skeleton@ == skeleton_spec(grid@, width as int, target),
{
    let mut current = copy_cells(grid);
    if target == 0 {
        // clearing a cell to 0 cannot change a zero target
        return current;
    }
    let len = current.len();
    let ghost w = width as int;
    loop
        invariant
            len == current@.len(),
            w == width,
            target != 0,
            targets_countable(current@, w, target),
            skeleton_spec(current@, w, target) == skeleton_spec(grid@, w, target),
        decreases occurrences(current@, target),
    {
        let ghost start = current@;
        let mut changed = false;
        let mut i: usize = 0;
        while i < len
            invariant
                i <= len,
                len == current@.len(),
                start.len() == len,
                w == width,
                target != 0,
                targets_countable(current@, w, target),
                thin_from(current@, w, target, i as int) == thin_pass(start, w, target),
                only_leaves(start, current@, target),
                changed ==> exists|z: int| 0 <= z < len && #[trigger] current@[z] != start[z],
                !changed ==> current@ == start,
            decreases len - i,
        {
            let ghost before = current@;
            let mut clear = false;
            if current[i] == target {
                assert(count_safe(len as int, w, i as int));
                let ns = neighbors4(i, width, len);
                proof {
                    lemma_neighbor_list(i as int, w, len as int);
                }
                let n = count_cells(current.as_slice(), &ns, target);
                // not an endpoint, and not a connector
                if n >= 2 && keeps_neighbours_joined(&current, width, target, i) {
                    clear = true;
                }
            }
            assert(clear == removable(before, w, target, i as int));
            if clear {
                current.set(i, 0);
                changed = true;
                assert(current@ == before.update(i as int, 0));
                assert(current@[i as int] != start[i as int]);
                assert forall|x: int| 0 <= x < len && current@[x] == target implies #[trigger] count_safe(
                    len as int,
                    w,
                    x,
                ) by {
                    assert(before[x] == target);
                }
            }
            assert(only_leaves(before, current@, target));
            proof {
                lemma_only_leaves_trans(start, before, current@, target);
            }
            i += 1;
        }
        assert(thin_from(current@, w, target, len as int) == current@);
        if !changed {
            return current;
        }
        proof {
            lemma_occurrences_shrink(start, current@, target);
        }
    }
}

/// On full rows, every operation of this module only reads cells of the grid.
pub proof fn lemma_full_rows_defined(g: Seq<i8>, w: int, t: i8)
    requires
        is_grid(g.len() as int, w),
    ensures
        erode_defined(g, w, t),
        dilate_defined(g, w, t),
        boundary_defined(g, w, t),
        forall|i: int| 0 <= i < g.len() ==> #[trigger] count_safe(g.len() as int, w, i),
        targets_countable(g, w, t),
{
    assert forall|i: int| 0 <= i < g.len() implies #[trigger] count_safe(g.len() as int, w, i) by {
        lemma_full_rows(g.len() as int, w, i);
    }
    assert forall|i: int| 0 <= i < g.len() implies #[trigger] scan_safe(g, w, t, i, false) by {
        lemma_full_rows(g.len() as int, w, i);
    }
    assert forall|i: int| 0 <= i < g.len() implies #[trigger] scan_safe(g, w, t, i, true) by {
        lemma_full_rows(g.len() as int, w, i);
    }
}

/// The cells of `g` that hold `t`.
pub open spec fn target_set(g: Seq<i8>, t: i8) -> spec_fn(int) -> bool {
    |x: int| 0 <= x < g.len() && g[x] == t
}

/// 4-adjacency on a grid of `len` cells and width `w`, as a relation.
pub open spec fn adjacency(len: int, w: int) -> spec_fn(int, int) -> bool {
    |x: int, y: int| adjacent4(len, w, x, y)
}

/// Every cell may be eroded: cells off the grid are not required.
pub open spec fn no_border_rule() -> spec_fn(int) -> bool {
    |x: int| true
}

proof fn lemma_adjacency_symmetric(len: int, w: int)
    ensures
        symmetric(adjacency(len, w)),
{
    let nb = adjacency(len, w);
    assert forall|x: int, y: int| #[trigger] nb(x, y) implies nb(y, x) by {
        assert(adjacent4(len, w, x, y));
    }
}

/// For a nonzero target, the target cells of an erosion are the set
/// erosion of the target cells.
proof fn lemma_erode_targets(g: Seq<i8>, w: int, t: i8)
    requires
        t != 0,
    ensures
        target_set(erode_spec(g, w, t), t) == erode_set(
            target_set(g, t),
            adjacency(g.len() as int, w),
            no_border_rule(),
        ),
{
    let len = g.len() as int;
    let e = erode_spec(g, w, t);
    let s = target_set(g, t);
    let nb = adjacency(len, w);
    assert forall|x: int| #[trigger] target_set(e, t)(x) == erode_set(s, nb, no_border_rule())(x) by {
        if 0 <= x < len && g[x] == t {
            if surrounded(g, w, t, x) {
                assert forall|y: int| #[trigger] nb(x, y) implies s(y) by {
                    assert(adjacent4(len, w, x, y));
                }
            } else {
                let y = choose|y: int| #[trigger] adjacent4(len, w, x, y) && g[y] != t;
                assert(nb(x, y) && !s(y));
            }
        }
    }
    assert(target_set(e, t) =~= erode_set(s, nb, no_border_rule()));
}

/// The target cells of a dilation are the set dilation of the target cells.
proof fn lemma_dilate_targets(g: Seq<i8>, w: int, t: i8)
    ensures
        target_set(dilate_spec(g, w, t), t) == dilate_set(
            target_set(g, t),
            adjacency(g.len() as int, w),
        ),
{
    let len = g.len() as int;
    let d = dilate_spec(g, w, t);
    let s = target_set(g, t);
    let nb = adjacency(len, w);
    assert forall|x: int| #[trigger] target_set(d, t)(x) == dilate_set(s, nb)(x) by {
        if 0 <= x < len && g[x] != t {
            if touches(g, w, t, x) {
                let y = choose|y: int| #[trigger] adjacent4(len, w, x, y) && g[y] == t;
                assert(nb(x, y) && s(y));
            }
            if dilate_set(s, nb)(x) {
                let y = choose|y: int| #[trigger] nb(x, y) && s(y);
                assert(adjacent4(len, w, x, y) && g[y] == t);
            }
        }
        if dilate_set(s, nb)(x) && !s(x) {
            let y = choose|y: int| #[trigger] nb(x, y) && s(y);
            assert(0 <= x < len);
        }
    }
    assert(target_set(d, t) =~= dilate_set(s, nb));
}

/// Erosion only removes target cells (they become 0), and dilation only
/// adds target cells: both keep the grid's length.
pub proof fn lemma_erode_shrinks_dilate_grows(g: Seq<i8>, w: int, t: i8)
    ensures
        erode_spec(g, w, t).len() == g.len(),
        dilate_spec(g, w, t).len() == g.len(),
        forall|i: int|
            0 <= i < g.len() && #[trigger] erode_spec(g, w, t)[i] != g[i] ==> g[i] == t
                && erode_spec(g, w, t)[i] == 0,
        forall|i: int|
            0 <= i < g.len() && #[trigger] dilate_spec(g, w, t)[i] != g[i] ==> dilate_spec(
                g,
                w,
                t,
            )[i] == t,
        forall|i: int| 0 <= i < g.len() && g[i] == t ==> #[trigger] dilate_spec(g, w, t)[i] == t,
{
}

/// The boundary holds only target cells of the grid, and 0 elsewhere.
pub proof fn lemma_boundary_within_targets(g: Seq<i8>, w: int, t: i8)
    ensures
        boundary_spec(g, w, t).len() == g.len(),
        forall|i: int|
            0 <= i < g.len() ==> (#[trigger] boundary_spec(g, w, t)[i] == t && g[i] == t)
                || boundary_spec(g, w, t)[i] == 0,
{
}

/// Opening is idempotent: opening an opened grid changes nothing
/// (for a nonzero target, which erosion can remove).
pub proof fn lemma_opening_idempotent(g: Seq<i8>, w: int, t: i8)
    requires
        t != 0,
    ensures
        opening_spec(opening_spec(g, w, t), w, t) == opening_spec(g, w, t),
{
    let len = g.len() as int;
    let nb = adjacency(len, w);
    let f = no_border_rule();
    let e = erode_spec(g, w, t);
    let o = dilate_spec(e, w, t);
    let e2 = erode_spec(o, w, t);
    let o2 = dilate_spec(e2, w, t);
    lemma_adjacency_symmetric(len, w);
    lemma_erode_targets(g, w, t);
    lemma_dilate_targets(e, w, t);
    lemma_erode_targets(o, w, t);
    lemma_dilate_targets(e2, w, t);
    lemma_open_set_idempotent(target_set(g, t), nb, f);
    assert(target_set(o2, t) == target_set(o, t));
    assert forall|x: int| 0 <= x < len implies o2[x] == o[x] by {
        if o[x] == t {
            assert(target_set(o, t)(x));
            assert(target_set(o2, t)(x));
        } else {
            assert(!target_set(o2, t)(x));
        }
    }
    assert(o2 =~= o);
}

/// Closing is idempotent: closing a closed grid changes nothing
/// (for a nonzero target, which erosion can remove).
pub proof fn lemma_closing_idempotent(g: Seq<i8>, w: int, t: i8)
    requires
        t != 0,
    ensures
        closing_spec(closing_spec(g, w, t), w, t) == closing_spec(g, w, t),
{
    let len = g.len() as int;
    let nb = adjacency(len, w);
    let f = no_border_rule();
    let d = dilate_spec(g, w, t);
    let c = erode_spec(d, w, t);
    let d2 = dilate_spec(c, w, t);
    let c2 = erode_spec(d2, w, t);
    lemma_adjacency_symmetric(len, w);
    lemma_dilate_targets(g, w, t);
    lemma_erode_targets(d, w, t);
    lemma_dilate_targets(c, w, t);
    lemma_erode_targets(d2, w, t);
    lemma_close_set_idempotent(target_set(g, t), nb, f);
    lemma_opening_shrinks(dilate_set(target_set(g, t), nb), nb, f);
    assert(target_set(c2, t) == target_set(c, t));
    assert forall|x: int| 0 <= x < len implies c2[x] == c[x] by {
        if c[x] == t {
            assert(target_set(c, t)(x));
            assert(target_set(c2, t)(x));
        } else {
            assert(!target_set(c2, t)(x));
            if d2[x] == t {
                assert(target_set(d2, t)(x));
                assert(target_set(d, t)(x));
            }
        }
    }
    assert(c2 =~= c);
}

/// Opening only removes target cells: every target cell of the result was a
/// target cell, and every other cell is unchanged (for a nonzero target).
pub proof fn lemma_opening_removes_only_targets(g: Seq<i8>, w: int, t: i8)
    requires
        t != 0,
    ensures
        opening_spec(g, w, t).len() == g.len(),
        forall|i: int|
            0 <= i < g.len() && #[trigger] opening_spec(g, w, t)[i] == t ==> g[i] == t,
        forall|i: int| 0 <= i < g.len() && g[i] != t ==> #[trigger] opening_spec(g, w, t)[i] == g[i],
{
    let len = g.len() as int;
    let nb = adjacency(len, w);
    let e = erode_spec(g, w, t);
    let o = dilate_spec(e, w, t);
    lemma_adjacency_symmetric(len, w);
    lemma_erode_targets(g, w, t);
    lemma_dilate_targets(e, w, t);
    lemma_opening_shrinks(target_set(g, t), nb, no_border_rule());
    assert forall|i: int| 0 <= i < len && #[trigger] o[i] == t implies g[i] == t by {
        assert(target_set(o, t)(i));
    }
    assert forall|i: int| 0 <= i < len && g[i] != t implies #[trigger] o[i] == g[i] by {
        if o[i] == t {
            assert(target_set(o, t)(i));
        }
    }
}

/// Closing keeps every target cell.
pub proof fn lemma_closing_keeps_targets(g: Seq<i8>, w: int, t: i8)
    ensures
        closing_spec(g, w, t).len() == g.len(),
        forall|i: int| 0 <= i < g.len() && g[i] == t ==> #[trigger] closing_spec(g, w, t)[i] == t,
{
    let len = g.len() as int;
    let d = dilate_spec(g, w, t);
    lemma_adjacency_symmetric(len, w);
    assert forall|i: int| 0 <= i < len && g[i] == t implies #[trigger] closing_spec(g, w, t)[i] == t by {
        assert forall|j: int| #[trigger] adjacent4(len, w, i, j) implies d[j] == t by {
            assert(adjacent4(len, w, j, i));
        }
        assert(surrounded(d, w, t, i));
    }
}

} // verus!
