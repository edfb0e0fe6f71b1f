use ternary_morph::four_connected::{boundary, closing, dilate, erode, opening, skeletonize};

fn grid(v: &[i8], w: usize) -> (Vec<i8>, usize) {
    (v.to_vec(), w)
}

#[test]
fn test_erode_single_cell() {
    let (g, w) = grid(&[
        0, 0, 0,
        0, 1, 0,
        0, 0, 0,
    ], 3);
    let r = erode(&g, w, 1);
    assert_eq!(r[4], 0); // single cell eroded away
}

#[test]
fn test_erode_block() {
    let (g, w) = grid(&[
        1, 1,
        1, 1,
    ], 2);
    let r = erode(&g, w, 1);
    assert!(r.iter().all(|&v| v == 1)); // solid block survives
}

#[test]
fn test_erode_line() {
    // Horizontal 3-wide line in 3x5 grid with padding
    let (g, w) = grid(&[
        0, 0, 0, 0, 0,
        1, 1, 1, 0, 0,
        0, 0, 0, 0, 0,
    ], 5);
    let r = erode(&g, w, 1);
    // idx 6 (center of line) has left=1, right=1, up=0, down=0 -> erodes
    assert_eq!(r[6], 0);
}

#[test]
fn test_dilate_single() {
    let (g, w) = grid(&[
        0, 0, 0,
        0, 1, 0,
        0, 0, 0,
    ], 3);
    let r = dilate(&g, w, 1);
    assert_eq!(r[1], 1); // above
    assert_eq!(r[3], 1); // left
    assert_eq!(r[5], 1); // right
    assert_eq!(r[7], 1); // below
    assert_eq!(r[0], 0); // diagonal untouched
}

#[test]
fn test_dilate_preserves_non_target() {
    let (g, w) = grid(&[
        -1, 0, 0,
         0, 1, 0,
         0, 0, 0,
    ], 3);
    let r = dilate(&g, w, 1);
    assert_eq!(r[0], -1); // -1 preserved, not target
}

#[test]
fn test_opening_removes_noise() {
    let (g, w) = grid(&[
        1, 0, 0,
        0, 1, 0,
        0, 0, 1,
    ], 3);
    let r = opening(&g, w, 1);
    // isolated cells removed
    assert!(r.iter().all(|&v| v != 1));
}

#[test]
fn test_opening_preserves_block() {
    let (g, w) = grid(&[
        1, 1, 1,
        1, 1, 1,
        1, 1, 1,
    ], 3);
    let r = opening(&g, w, 1);
    assert!(r.iter().all(|&v| v == 1));
}

#[test]
fn test_closing_fills_gap() {
    let (g, w) = grid(&[
        1, 1, 1,
        1, 0, 1,
        1, 1, 1,
    ], 3);
    let r = closing(&g, w, 1);
    assert_eq!(r[4], 1); // gap filled
}

#[test]
fn test_closing_no_change_solid() {
    let (g, w) = grid(&[
        1, 1,
        1, 1,
    ], 2);
    let r = closing(&g, w, 1);
    assert!(r.iter().all(|&v| v == 1));
}

#[test]
fn test_boundary_of_large_block() {
    // 5x5 block so center is fully interior
    let (g, w) = grid(&[
        1, 1, 1, 1, 1,
        1, 1, 1, 1, 1,
        1, 1, 1, 1, 1,
        1, 1, 1, 1, 1,
        1, 1, 1, 1, 1,
    ], 5);
    let r = boundary(&g, w, 1);
    // center (idx 12) has all 4 target neighbors and is not on edge
    assert_eq!(r[12], 0);
    // corner is on grid edge -> boundary
    assert_eq!(r[0], 1);
    assert_eq!(r[24], 1);
}

#[test]
fn test_boundary_single_cell() {
    let (g, w) = grid(&[
        0, 0, 0,
        0, 1, 0,
        0, 0, 0,
    ], 3);
    let r = boundary(&g, w, 1);
    assert_eq!(r[4], 1); // isolated cell is its own boundary
}

#[test]
fn test_skeletonize_block() {
    let (g, w) = grid(&[
        1, 1, 1,
        1, 1, 1,
        1, 1, 1,
    ], 3);
    let r = skeletonize(&g, w, 1);
    // Total skeleton cells should be fewer than in the grid
    let orig_count = g.iter().filter(|&&v| v == 1).count();
    let skel_count = r.iter().filter(|&&v| v == 1).count();
    assert!(skel_count < orig_count);
    // Should have at least 1 cell remaining
    assert!(skel_count >= 1);
}

#[test]
fn test_skeletonize_line() {
    let (g, w) = grid(&[
        1, 1, 1, 1, 1,
    ], 5);
    let r = skeletonize(&g, w, 1);
    // Line is already 1-cell wide, should survive
    assert!(r.iter().all(|&v| v == 1));
}

#[test]
fn test_erode_with_negative() {
    let (g, w) = grid(&[
        -1, -1,
        -1, -1,
    ], 2);
    let r = erode(&g, w, -1);
    assert!(r.iter().all(|&v| v == -1));
}

#[test]
fn test_dilate_negative_target() {
    let (g, w) = grid(&[
         0,  0, 0,
         0, -1, 0,
         0,  0, 0,
    ], 3);
    let r = dilate(&g, w, -1);
    assert_eq!(r[1], -1);
    assert_eq!(r[7], -1);
}
