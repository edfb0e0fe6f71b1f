use ternary_morph::four_connected::{boundary, closing, dilate, erode, opening, skeletonize};

const W: usize = 6;

fn mixed() -> Vec<i8> {
    vec![
        0, 1, 1, 1, 0, -1,
        0, 1, 1, 1, 0, -1,
        0, 1, 1, 1, 1, 0,
        1, 0, 0, 0, 0, 0,
        -1, -1, 0, 1, 1, 0,
    ]
}

#[test]
fn erode_mixed_exact() {
    assert_eq!(
        erode(&mixed(), W, 1),
        vec![
            0, 0, 1, 0, 0, -1,
            0, 0, 1, 0, 0, -1,
            0, 0, 0, 0, 0, 0,
            0, 0, 0, 0, 0, 0,
            -1, -1, 0, 0, 0, 0,
        ]
    );
}

#[test]
fn dilate_mixed_exact() {
    assert_eq!(
        dilate(&mixed(), W, 1),
        vec![
            1, 1, 1, 1, 1, -1,
            1, 1, 1, 1, 1, -1,
            1, 1, 1, 1, 1, 1,
            1, 1, 1, 1, 1, 0,
            1, -1, 1, 1, 1, 1,
        ]
    );
}

#[test]
fn opening_mixed_exact() {
    assert_eq!(
        opening(&mixed(), W, 1),
        vec![
            0, 1, 1, 1, 0, -1,
            0, 1, 1, 1, 0, -1,
            0, 0, 1, 0, 0, 0,
            0, 0, 0, 0, 0, 0,
            -1, -1, 0, 0, 0, 0,
        ]
    );
}

#[test]
fn closing_mixed_exact() {
    assert_eq!(
        closing(&mixed(), W, 1),
        vec![
            1, 1, 1, 1, 0, -1,
            1, 1, 1, 1, 0, -1,
            1, 1, 1, 1, 1, 0,
            1, 0, 1, 1, 0, 0,
            0, -1, 0, 1, 1, 0,
        ]
    );
}

#[test]
fn opening_twice_equals_once() {
    let once = opening(&mixed(), W, 1);
    assert_eq!(opening(&once, W, 1), once);
    let neg = opening(&mixed(), W, -1);
    assert_eq!(opening(&neg, W, -1), neg);
}

#[test]
fn closing_twice_equals_once() {
    let once = closing(&mixed(), W, 1);
    assert_eq!(closing(&once, W, 1), once);
    let neg = closing(&mixed(), W, -1);
    assert_eq!(closing(&neg, W, -1), neg);
}

#[test]
fn opening_changes_only_target_cells() {
    let g = mixed();
    let o = opening(&g, W, 1);
    for i in 0..g.len() {
        if o[i] == 1 {
            assert_eq!(g[i], 1);
        }
        if g[i] != 1 {
            assert_eq!(o[i], g[i]);
        }
    }
}

#[test]
fn closing_keeps_every_target_cell() {
    let g = mixed();
    for t in [-1i8, 0, 1] {
        let c = closing(&g, W, t);
        for i in 0..g.len() {
            if g[i] == t {
                assert_eq!(c[i], t);
            }
        }
    }
}

#[test]
fn boundary_mixed_exact() {
    assert_eq!(
        boundary(&mixed(), W, 1),
        vec![
            0, 1, 1, 1, 0, 0,
            0, 1, 0, 1, 0, 0,
            0, 1, 1, 1, 1, 0,
            1, 0, 0, 0, 0, 0,
            0, 0, 0, 1, 1, 0,
        ]
    );
}

#[test]
fn skeletonize_mixed_exact_and_stable() {
    let s = skeletonize(&mixed(), W, 1);
    assert_eq!(
        s,
        vec![
            0, 0, 0, 1, 0, -1,
            0, 0, 0, 1, 0, -1,
            0, 1, 1, 1, 1, 0,
            1, 0, 0, 0, 0, 0,
            -1, -1, 0, 1, 1, 0,
        ]
    );
    assert_eq!(skeletonize(&s, W, 1), s);
}

#[test]
fn skeletonize_block_stays_connected() {
    let g = vec![1i8; 9];
    let s = skeletonize(&g, 3, 1);
    assert_eq!(s, vec![0, 0, 1, 0, 0, 1, 1, 1, 1]);
    assert!(cut_cells_only(&s, 3, 1));
    assert!(targets_connected(&s, 3, 1));
}

/// Whether, in a grid of one region, every cell holding `t` with two or more
/// such 4-neighbours splits the region when cleared.
fn cut_cells_only(g: &[i8], w: usize, t: i8) -> bool {
    (0..g.len()).all(|i| {
        if g[i] != t {
            return true;
        }
        let mut n = 0;
        if i >= w && g[i - w] == t {
            n += 1;
        }
        if i % w > 0 && g[i - 1] == t {
            n += 1;
        }
        if i % w + 1 < w && i + 1 < g.len() && g[i + 1] == t {
            n += 1;
        }
        if i + w < g.len() && g[i + w] == t {
            n += 1;
        }
        if n < 2 {
            return true;
        }
        let mut cleared = g.to_vec();
        cleared[i] = 0;
        !targets_connected(&cleared, w, t)
    })
}

#[test]
fn skeletonize_thins_small_blocks() {
    let g = vec![0i8, 0, 1, 0, 1, 1, 1, 1, 1];
    let s = skeletonize(&g, 3, 1);
    assert_eq!(s, vec![0, 0, 1, 0, 0, 1, 1, 1, 1]);
    assert!(cut_cells_only(&s, 3, 1));
    let block = vec![1i8; 16];
    let s = skeletonize(&block, 4, 1);
    assert_eq!(s, vec![0, 0, 0, 1, 0, 0, 0, 1, 0, 0, 0, 1, 1, 1, 1, 1]);
    assert!(targets_connected(&s, 4, 1));
    assert!(cut_cells_only(&s, 4, 1));
}

/// Whether all cells holding `t` form one 4-connected region.
fn targets_connected(g: &[i8], w: usize, t: i8) -> bool {
    let start = match g.iter().position(|&v| v == t) {
        Some(s) => s,
        None => return true,
    };
    let mut seen = vec![false; g.len()];
    let mut stack = vec![start];
    seen[start] = true;
    while let Some(x) = stack.pop() {
        let mut ns = Vec::new();
        if x >= w {
            ns.push(x - w);
        }
        if x % w > 0 {
            ns.push(x - 1);
        }
        if x % w + 1 < w && x + 1 < g.len() {
            ns.push(x + 1);
        }
        if x + w < g.len() {
            ns.push(x + w);
        }
        for n in ns {
            if g[n] == t && !seen[n] {
                seen[n] = true;
                stack.push(n);
            }
        }
    }
    (0..g.len()).all(|i| g[i] != t || seen[i])
}

#[test]
fn skeletonize_thick_block_stays_connected() {
    let g = vec![1i8; 20];
    let s = skeletonize(&g, 5, 1);
    assert_eq!(
        s,
        vec![
            0, 0, 0, 0, 1,
            0, 0, 0, 0, 1,
            0, 0, 0, 0, 1,
            1, 1, 1, 1, 1,
        ]
    );
    assert!(targets_connected(&s, 5, 1));
    assert!(cut_cells_only(&s, 5, 1));
    assert_eq!(skeletonize(&s, 5, 1), s);
}

#[test]
fn skeletonize_zero_target_without_thick_cells() {
    let g = vec![1i8, 0, 1, 0, 1, 0];
    assert_eq!(skeletonize(&g, 3, 0), g);
}

#[test]
fn empty_grid_gives_empty_results() {
    let g: Vec<i8> = Vec::new();
    assert!(erode(&g, 3, 1).is_empty());
    assert!(dilate(&g, 3, 1).is_empty());
    assert!(boundary(&g, 3, 1).is_empty());
    assert!(skeletonize(&g, 3, 1).is_empty());
}

#[test]
fn single_column_grid() {
    assert_eq!(erode(&[1, 1, 1, 0], 1, 1), vec![1, 1, 0, 0]);
    assert_eq!(dilate(&[0, 0, 1, 0], 1, 1), vec![0, 1, 1, 1]);
    assert_eq!(boundary(&[1, 1, 1, 1], 1, 1), vec![1, 1, 1, 1]);
}

#[test]
fn zero_target_erosion_keeps_grid() {
    let g = mixed();
    assert_eq!(erode(&g, W, 0), g);
}

#[test]
fn short_last_row() {
    assert_eq!(erode(&[1, 1, 1, 0, 1], 3, 1), vec![0, 1, 1, 0, 0]);
    assert_eq!(dilate(&[0, 0, 0, 1, 0], 3, 1), vec![1, 0, 0, 1, 1]);
    assert_eq!(boundary(&[1, 1, 1, 1, 1, 1, 1, 0], 3, 1), vec![1, 1, 1, 1, 1, 1, 1, 0]);
    assert_eq!(skeletonize(&[1, 1, 1, 1, 1, 0, 0], 3, 1), vec![0, 1, 1, 1, 1, 0, 0]);
}

#[test]
fn zero_width_without_probed_cells() {
    assert_eq!(erode(&[1, 0, -1], 0, 5), vec![1, 0, -1]);
    assert_eq!(dilate(&[5, 5], 0, 5), vec![5, 5]);
}

#[test]
fn skeletonize_keeps_every_region() {
    let g: Vec<i8> = [1, 1, 1, 0, 1, 1, 1].repeat(3);
    let s = skeletonize(&g, 7, 1);
    assert_eq!(
        s,
        vec![
            0, 0, 1, 0, 0, 0, 1,
            0, 0, 1, 0, 0, 0, 1,
            1, 1, 1, 0, 1, 1, 1,
        ]
    );
    // both blocks keep cells, and each stays one region
    assert!(s[..3].iter().any(|&v| v == 1) && s[4..7].iter().any(|&v| v == 1));
    let left: Vec<i8> = (0..21).map(|i| if i % 7 < 3 { s[i] } else { 0 }).collect();
    let right: Vec<i8> = (0..21).map(|i| if i % 7 > 3 { s[i] } else { 0 }).collect();
    assert!(targets_connected(&left, 7, 1));
    assert!(targets_connected(&right, 7, 1));
}
