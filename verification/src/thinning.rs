//! Connectivity of the target cells of a grid through 4-connected walks,
//! and the flood fill that decides it; thinning removes a cell only when
//! this keeps its neighbours connected.
use vstd::prelude::*;
use crate::cells::{copy_cells, lemma_occurrences_bound, lemma_occurrences_shrink, occurrences, only_leaves};
use crate::four_connected::{
    adjacent4, count_safe, lemma_list_quantifiers, lemma_neighbor_list, neighbor_list, neighbors4,
    scan_cells, touches,
};

verus! {

/// `p` is a walk of 4-adjacent steps through cells of `c` holding `t`.
pub open spec fn is_walk(c: Seq<i8>, w: int, t: i8, p: Seq<int>) -> bool {
    &&& p.len() > 0
    &&& forall|j: int| 0 <= j < p.len() ==> 0 <= #[trigger] p[j] < c.len() && c[p[j]] == t
    &&& forall|j: int|
        0 <= j < p.len() - 1 ==> #[trigger] adjacent4(c.len() as int, w, p[j], p[j + 1])
}

/// Cells `a` and `b` are joined by a walk through cells holding `t`.
pub open spec fn joined(c: Seq<i8>, w: int, t: i8, a: int, b: int) -> bool {
    exists|p: Seq<int>| #[trigger] is_walk(c, w, t, p) && p[0] == a && p.last() == b
}

/// A target cell is joined to itself.
pub proof fn lemma_joined_self(c: Seq<i8>, w: int, t: i8, a: int)
    requires
        0 <= a < c.len(),
        c[a] == t,
    ensures
        joined(c, w, t, a, a),
{
    let p = seq![a];
    assert(is_walk(c, w, t, p));
}

/// A walk extends by one adjacent target cell.
pub proof fn lemma_joined_step(c: Seq<i8>, w: int, t: i8, a: int, b: int, x: int)
    requires
        joined(c, w, t, a, b),
        adjacent4(c.len() as int, w, b, x),
        c[x] == t,
    ensures
        joined(c, w, t, a, x),
{
    let p = choose|p: Seq<int>| #[trigger] is_walk(c, w, t, p) && p[0] == a && p.last() == b;
    let q = p.push(x);
    assert forall|j: int| 0 <= j < q.len() - 1 implies #[trigger] adjacent4(
        c.len() as int,
        w,
        q[j],
        q[j + 1],
    ) by {
        if j < p.len() - 1 {
            assert(adjacent4(c.len() as int, w, p[j], p[j + 1]));
        }
    }
    assert(is_walk(c, w, t, q));
}

/// Walks concatenate.
pub proof fn lemma_joined_trans(c: Seq<i8>, w: int, t: i8, a: int, b: int, d: int)
    requires
        joined(c, w, t, a, b),
        joined(c, w, t, b, d),
    ensures
        joined(c, w, t, a, d),
{
    let p1 = choose|p: Seq<int>| #[trigger] is_walk(c, w, t, p) && p[0] == a && p.last() == b;
    let p2 = choose|p: Seq<int>| #[trigger] is_walk(c, w, t, p) && p[0] == b && p.last() == d;
    let n1 = p1.len() as int;
    let q = p1 + p2.subrange(1, p2.len() as int);
    assert forall|j: int| 0 <= j < q.len() implies 0 <= #[trigger] q[j] < c.len() && c[q[j]]
        == t by {
        if j < n1 {
            assert(q[j] == p1[j]);
        } else {
            assert(q[j] == p2[j - n1 + 1]);
        }
    }
    assert forall|j: int| 0 <= j < q.len() - 1 implies #[trigger] adjacent4(
        c.len() as int,
        w,
        q[j],
        q[j + 1],
    ) by {
        if j < n1 - 1 {
            assert(adjacent4(c.len() as int, w, p1[j], p1[j + 1]));
        } else if j == n1 - 1 {
            assert(q[j] == p2[0]);
            assert(q[j + 1] == p2[1]);
            assert(adjacent4(c.len() as int, w, p2[0int], p2[0int + 1]));
        } else {
            let k = j - n1 + 1;
            assert(q[j] == p2[k] && q[j + 1] == p2[k + 1]);
            assert(adjacent4(c.len() as int, w, p2[k], p2[k + 1]));
        }
    }
    assert(is_walk(c, w, t, q));
    if p2.len() == 1 {
        assert(q =~= p1);
    } else {
        assert(q.last() == p2.last());
    }
}

/// Walks reverse.
pub proof fn lemma_joined_reverse(c: Seq<i8>, w: int, t: i8, a: int, b: int)
    requires
        joined(c, w, t, a, b),
    ensures
        joined(c, w, t, b, a),
{
    let p = choose|p: Seq<int>| #[trigger] is_walk(c, w, t, p) && p[0] == a && p.last() == b;
    let n = p.len() as int;
    let q = Seq::new(p.len(), |j: int| p[n - 1 - j]);
    assert forall|j: int| 0 <= j < q.len() implies 0 <= #[trigger] q[j] < c.len() && c[q[j]]
        == t by {
        assert(q[j] == p[n - 1 - j]);
    }
    assert forall|j: int| 0 <= j < q.len() - 1 implies #[trigger] adjacent4(
        c.len() as int,
        w,
        q[j],
        q[j + 1],
    ) by {
        let k = n - 2 - j;
        assert(adjacent4(c.len() as int, w, p[k], p[k + 1]));
    }
    assert(is_walk(c, w, t, q));
}

/// A walk stays a walk when every cell holding `t` keeps holding it.
pub proof fn lemma_joined_more_targets(c: Seq<i8>, d: Seq<i8>, w: int, t: i8, a: int, b: int)
    requires
        c.len() == d.len(),
        forall|x: int| 0 <= x < c.len() && c[x] == t ==> #[trigger] d[x] == t,
        joined(c, w, t, a, b),
    ensures
        joined(d, w, t, a, b),
{
    let p = choose|p: Seq<int>| #[trigger] is_walk(c, w, t, p) && p[0] == a && p.last() == b;
    assert forall|j: int| 0 <= j < p.len() - 1 implies #[trigger] adjacent4(
        d.len() as int,
        w,
        p[j],
        p[j + 1],
    ) by {
        assert(adjacent4(c.len() as int, w, p[j], p[j + 1]));
    }
    assert forall|j: int| 0 <= j < p.len() implies 0 <= #[trigger] p[j] < d.len() && d[p[j]]
        == t by {
        assert(c[p[j]] == t);
    }
    assert(is_walk(d, w, t, p));
}

/// After cell `i` is cleared to 0, every two of its 4-neighbours that hold
/// `t` are still joined.
pub open spec fn neighbours_stay_joined(c: Seq<i8>, w: int, t: i8, i: int) -> bool {
    forall|u: int, v: int|
        #![trigger adjacent4(c.len() as int, w, i, u), adjacent4(c.len() as int, w, i, v)]
        adjacent4(c.len() as int, w, i, u) && adjacent4(c.len() as int, w, i, v) && c.update(
            i,
            0,
        )[u] == t && c.update(i, 0)[v] == t ==> joined(c.update(i, 0), w, t, u, v)
}

/// No cell is its own neighbour.
proof fn lemma_not_self_adjacent(len: int, w: int, x: int)
    requires
        w > 0,
    ensures
        !adjacent4(len, w, x, x),
{
}

/// A walk between two cells other than `i` survives clearing `i`, when the
/// neighbours of `i` stay joined.
pub proof fn lemma_walk_survives_removal(c: Seq<i8>, w: int, t: i8, i: int, p: Seq<int>)
    requires
        w > 0,
        t != 0,
        0 <= i < c.len(),
        neighbours_stay_joined(c, w, t, i),
        is_walk(c, w, t, p),
        p[0] != i,
        p.last() != i,
    ensures
        joined(c.update(i, 0), w, t, p[0], p.last()),
    decreases p.len(),
{
    let c2 = c.update(i, 0);
    let len = c.len() as int;
    let n = p.len() as int;
    if exists|j: int| 0 <= j < p.len() && p[j] == i {
        let j = choose|j: int| 0 <= j < p.len() && p[j] == i;
        assert(0 < j < n - 1);
        let u = p[j - 1];
        let v = p[j + 1];
        assert(adjacent4(len, w, p[j - 1], p[(j - 1) + 1]));
        assert(adjacent4(len, w, p[j], p[j + 1]));
        lemma_not_self_adjacent(len, w, i);
        let pre = p.subrange(0, j);
        let suf = p.subrange(j + 1, n);
        assert forall|k: int| 0 <= k < pre.len() - 1 implies #[trigger] adjacent4(
            len,
            w,
            pre[k],
            pre[k + 1],
        ) by {
            assert(adjacent4(len, w, p[k], p[k + 1]));
        }
        assert forall|k: int| 0 <= k < suf.len() - 1 implies #[trigger] adjacent4(
            len,
            w,
            suf[k],
            suf[k + 1],
        ) by {
            assert(adjacent4(len, w, p[j + 1 + k], p[j + 1 + k + 1]));
        }
        assert(is_walk(c, w, t, pre));
        assert(is_walk(c, w, t, suf));
        assert(pre.last() == u && u != i);
        assert(suf[0] == v && v != i);
        assert(suf.last() == p.last());
        lemma_walk_survives_removal(c, w, t, i, pre);
        lemma_walk_survives_removal(c, w, t, i, suf);
        assert(adjacent4(len, w, i, u) && adjacent4(len, w, i, v));
        assert(c2[u] == t && c2[v] == t);
        assert(joined(c2, w, t, u, v));
        lemma_joined_trans(c2, w, t, p[0], u, v);
        lemma_joined_trans(c2, w, t, p[0], v, p.last());
    } else {
        assert forall|k: int| 0 <= k < p.len() implies 0 <= #[trigger] p[k] < c2.len() && c2[p[k]]
            == t by {
            assert(p[k] != i);
        }
        assert forall|k: int| 0 <= k < p.len() - 1 implies #[trigger] adjacent4(
            c2.len() as int,
            w,
            p[k],
            p[k + 1],
        ) by {
            assert(adjacent4(len, w, p[k], p[k + 1]));
        }
        assert(is_walk(c2, w, t, p));
    }
}

/// Two cells other than `i` that are joined stay joined after clearing `i`,
/// when the neighbours of `i` stay joined.
pub proof fn lemma_joined_survives_removal(c: Seq<i8>, w: int, t: i8, i: int, a: int, b: int)
    requires
        w > 0,
        t != 0,
        0 <= i < c.len(),
        neighbours_stay_joined(c, w, t, i),
        joined(c, w, t, a, b),
        a != i,
        b != i,
    ensures
        joined(c.update(i, 0), w, t, a, b),
{
    let p = choose|p: Seq<int>| #[trigger] is_walk(c, w, t, p) && p[0] == a && p.last() == b;
    lemma_walk_survives_removal(c, w, t, i, p);
}

/// Every target cell's neighbour list lies on the grid.
pub open spec fn targets_countable(c: Seq<i8>, w: int, t: i8) -> bool {
    forall|x: int| 0 <= x < c.len() && c[x] == t ==> #[trigger] count_safe(c.len() as int, w, x)
}

/// Marks closed under adjacency reach every cell joined to a marked cell.
proof fn lemma_closed_marks_cover(c: Seq<i8>, w: int, t: i8, marks: Seq<i8>, p: Seq<int>)
    requires
        marks.len() == c.len(),
        is_walk(c, w, t, p),
        marks[p[0]] == 1,
        forall|z: int|
            0 <= z < c.len() && c[z] == t && marks[z] != 1 ==> !#[trigger] touches(marks, w, 1, z),
    ensures
        marks[p.last()] == 1,
    decreases p.len(),
{
    if p.len() > 1 {
        let n = p.len() as int;
        let q = p.drop_last();
        assert forall|k: int| 0 <= k < q.len() - 1 implies #[trigger] adjacent4(
            c.len() as int,
            w,
            q[k],
            q[k + 1],
        ) by {
            assert(adjacent4(c.len() as int, w, p[k], p[k + 1]));
        }
        assert(is_walk(c, w, t, q));
        lemma_closed_marks_cover(c, w, t, marks, q);
        let y = p[n - 2];
        let x = p[n - 1];
        assert(adjacent4(c.len() as int, w, p[n - 2], p[(n - 2) + 1]));
        assert(adjacent4(marks.len() as int, w, x, y));
        if marks[x] != 1 {
            assert(touches(marks, w, 1, x));
        }
    }
}

/// Flood fill: marks with 1 exactly the cells joined to `start` through
/// cells holding `target`; every other entry is 0.
pub(crate) fn reach_from(cells: &[i8], width: usize, target: i8, start: usize) -> (marks: Vec<i8>)
    requires
        start < cells@.len(),
        cells@[start as int] == target,
        targets_countable(cells@, width as int, target),
    ensures
        marks@.len() == cells@.len(),
        forall|x: int|
            0 <= x < cells@.len() ==> (marks@[x] == 1 <==> joined(
                cells@,
                width as int,
                target,
                start as int,
                x,
            )),
{
    let len = cells.len();
    let ghost c = cells@;
    let ghost w = width as int;
    let mut marks: Vec<i8> = Vec::new();
    let mut k: usize = 0;
    while k < len
        invariant
            k <= len,
            marks@.len() == k,
            forall|j: int| 0 <= j < k ==> marks@[j] == 0,
        decreases len - k,
    {
        marks.push(0);
        k += 1;
    }
    marks.set(start, 1);
    proof {
        lemma_joined_self(c, w, target, start as int);
        lemma_occurrences_bound(marks@, 1);
    }
    loop
        invariant
            len == c.len(),
            c == cells@,
            w == width,
            marks@.len() == len,
            start < len,
            targets_countable(c, w, target),
            marks@[start as int] == 1,
            forall|x: int|
                0 <= x < len && #[trigger] marks@[x] == 1 ==> c[x] == target && joined(
                    c,
                    w,
                    target,
                    start as int,
                    x,
                ),
            occurrences(marks@, 1) <= len,
        decreases len - occurrences(marks@, 1),
    {
        let ghost m0 = marks@;
        let mut changed = false;
        let mut y: usize = 0;
        while y < len
            invariant
                len == c.len(),
                c == cells@,
                w == width,
                y <= len,
                marks@.len() == len,
                m0.len() == len,
                start < len,
                targets_countable(c, w, target),
                marks@[start as int] == 1,
                forall|x: int|
                    0 <= x < len && #[trigger] marks@[x] == 1 ==> c[x] == target && joined(
                        c,
                        w,
                        target,
                        start as int,
                        x,
                    ),
                only_leaves(marks@, m0, 1),
                changed ==> exists|z: int| 0 <= z < len && #[trigger] marks@[z] == 1 && m0[z] != 1,
                !changed ==> marks@ == m0,
                !changed ==> forall|z: int|
                    0 <= z < y && c[z] == target && m0[z] != 1 ==> !#[trigger] touches(
                        m0,
                        w,
                        1,
                        z,
                    ),
            decreases len - y,
        {
            if marks[y] != 1 && cells[y] == target {
                assert(count_safe(len as int, w, y as int));
                let ns = neighbors4(y, width, len);
                proof {
                    lemma_neighbor_list(y as int, w, len as int);
                    lemma_list_quantifiers(marks@, w, 1, y as int);
                }
                if scan_cells(marks.as_slice(), &ns, 1, true) {
                    proof {
                        let z = choose|z: int|
                            #[trigger] adjacent4(len as int, w, y as int, z) && marks@[z] == 1;
                        assert(adjacent4(len as int, w, z, y as int));
                        lemma_joined_step(c, w, target, start as int, z, y as int);
                    }
                    marks.set(y, 1);
                    changed = true;
                    assert(marks@[y as int] == 1 && m0[y as int] != 1);
                }
            }
            y += 1;
        }
        if !changed {
            proof {
                assert forall|x: int| 0 <= x < len implies (marks@[x] == 1 <==> joined(
                    c,
                    w,
                    target,
                    start as int,
                    x,
                )) by {
                    if joined(c, w, target, start as int, x) {
                        let p = choose|p: Seq<int>|
                            #[trigger] is_walk(c, w, target, p) && p[0] == start as int && p.last()
                                == x;
                        lemma_closed_marks_cover(c, w, target, marks@, p);
                    }
                }
            }
            return marks;
        }
        proof {
            lemma_occurrences_shrink(marks@, m0, 1);
            lemma_occurrences_bound(marks@, 1);
        }
    }
}

/// Whether clearing target cell `i` keeps every two of its target
/// 4-neighbours joined: a flood fill from its first target neighbour must
/// reach all the others.
pub(crate) fn keeps_neighbours_joined(cells: &Vec<i8>, width: usize, target: i8, i: usize) -> (keep: bool)
    requires
        i < cells@.len(),
        cells@[i as int] == target,
        target != 0,
        targets_countable(cells@, width as int, target),
    ensures
        keep == neighbours_stay_joined(cells@, width as int, target, i as int),
{
    let len = cells.len();
    let ghost w = width as int;
    let ghost c2 = cells@.update(i as int, 0);
    let mut cleared = copy_cells(cells.as_slice());
    cleared.set(i, 0);
    assert(cleared@ == c2);
    assert(count_safe(len as int, w, i as int));
    let ns = neighbors4(i, width, len);
    proof {
        lemma_neighbor_list(i as int, w, len as int);
        assert forall|m: int| 0 <= m < ns.len() implies #[trigger] ns@[m] < len && adjacent4(
            len as int,
            w,
            i as int,
            ns@[m] as int,
        ) by {
            assert(ns@[m] == neighbor_list(i as int, w, len as int)[m]);
        }
    }
    let mut k: usize = 0;
    let mut found = false;
    let mut u0: usize = 0;
    while k < ns.len() && !found
        invariant
            k <= ns.len(),
            len == cleared@.len(),
            cleared@ == c2,
            ns@ == neighbor_list(i as int, w, len as int),
            forall|m: int|
                0 <= m < ns.len() ==> #[trigger] ns@[m] < len && adjacent4(
                    len as int,
                    w,
                    i as int,
                    ns@[m] as int,
                ),
            found ==> u0 < len && adjacent4(len as int, w, i as int, u0 as int) && c2[u0 as int]
                == target,
            !found ==> forall|m: int| 0 <= m < k ==> c2[#[trigger] ns@[m] as int] != target,
        decreases ns.len() - k,
    {
        if cleared[ns[k]] == target {
            u0 = ns[k];
            found = true;
        }
        k += 1;
    }
    if !found {
        proof {
            assert forall|u: int, v: int|
                #![trigger adjacent4(len as int, w, i as int, u), adjacent4(len as int, w, i as int, v)]
                adjacent4(len as int, w, i as int, u) && adjacent4(len as int, w, i as int, v)
                    && c2[u] == target && c2[v] == target implies joined(c2, w, target, u, v) by {
                assert(ns@.contains(u as usize));
                let m = choose|m: int| 0 <= m < ns.len() && ns@[m] == u as usize;
                assert(c2[ns@[m] as int] != target);
            }
        }
        return true;
    }
    proof {
        assert forall|x: int| 0 <= x < c2.len() && c2[x] == target implies #[trigger] count_safe(
            c2.len() as int,
            w,
            x,
        ) by {
            assert(cells@[x] == target);
        }
    }
    let marks = reach_from(cleared.as_slice(), width, target, u0);
    let mut ok = true;
    k = 0;
    while k < ns.len()
        invariant
            k <= ns.len(),
            len == cleared@.len(),
            cleared@ == c2,
            marks@.len() == len,
            ns@ == neighbor_list(i as int, w, len as int),
            forall|m: int|
                0 <= m < ns.len() ==> #[trigger] ns@[m] < len && adjacent4(
                    len as int,
                    w,
                    i as int,
                    ns@[m] as int,
                ),
            ok == forall|m: int|
                0 <= m < k && c2[#[trigger] ns@[m] as int] == target ==> marks@[ns@[m] as int] == 1,
        decreases ns.len() - k,
    {
        if cleared[ns[k]] == target && marks[ns[k]] != 1 {
            ok = false;
        }
        k += 1;
    }
    proof {
        let c = cells@;
        if ok {
            assert forall|u: int, v: int|
                #![trigger adjacent4(len as int, w, i as int, u), adjacent4(len as int, w, i as int, v)]
                adjacent4(len as int, w, i as int, u) && adjacent4(len as int, w, i as int, v)
                    && c2[u] == target && c2[v] == target implies joined(c2, w, target, u, v) by {
                assert(ns@.contains(u as usize));
                assert(ns@.contains(v as usize));
                let mu = choose|m: int| 0 <= m < ns.len() && ns@[m] == u as usize;
                let mv = choose|m: int| 0 <= m < ns.len() && ns@[m] == v as usize;
                assert(marks@[ns@[mu] as int] == 1);
                assert(marks@[ns@[mv] as int] == 1);
                lemma_joined_reverse(c2, w, target, u0 as int, u);
                lemma_joined_trans(c2, w, target, u, u0 as int, v);
            }
            assert(neighbours_stay_joined(c, w, target, i as int));
        } else {
            let m = choose|m: int|
                0 <= m < ns.len() && c2[#[trigger] ns@[m] as int] == target && marks@[ns@[m] as int]
                    != 1;
            let v = ns@[m] as int;
            assert(adjacent4(len as int, w, i as int, v));
            assert(!joined(c2, w, target, u0 as int, v));
            assert(!neighbours_stay_joined(c, w, target, i as int));
        }
    }
    ok
}

} // verus!
