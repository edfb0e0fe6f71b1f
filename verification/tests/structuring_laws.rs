use ternary_morph::structuring::{
    black_hat, closing, conditional_dilation, dilation, erosion, gradient, hit_or_miss, opening,
    reconstruct, se_3x3, top_hat,
};

fn field() -> Vec<i8> {
    vec![
        0, 0, 1, 1, 1, 0,
        0, 1, 1, 1, 1, -1,
        0, 1, 1, 1, 1, 0,
        -1, 0, 1, 1, 0, 0,
        0, 0, 0, 0, 0, 1,
    ]
}

#[test]
fn se_3x3_exact() {
    assert_eq!(
        se_3x3(),
        vec![(-1, -1), (-1, 0), (-1, 1), (0, -1), (0, 1), (1, -1), (1, 0), (1, 1)]
    );
}

#[test]
fn dilation_field_exact() {
    let r = dilation(&field(), 6, 5, &se_3x3());
    let mut expected = vec![1i8; 30];
    expected[24] = 0;
    assert_eq!(r, expected);
}

#[test]
fn erosion_field_exact() {
    let r = erosion(&field(), 6, 5, &se_3x3());
    let mut expected = vec![0i8; 30];
    expected[9] = 1;
    expected[11] = -1;
    expected[18] = -1;
    assert_eq!(r, expected);
}

#[test]
fn opening_and_closing_field_exact() {
    let se = se_3x3();
    assert_eq!(
        opening(&field(), 6, 5, &se),
        vec![
            0, 0, 1, 1, 1, 0,
            0, 0, 1, 1, 1, -1,
            0, 0, 1, 1, 1, 0,
            -1, 0, 0, 0, 0, 0,
            0, 0, 0, 0, 0, 0,
        ]
    );
    assert_eq!(
        closing(&field(), 6, 5, &se),
        vec![
            0, 0, 0, 0, 0, 0,
            0, 1, 1, 1, 1, 0,
            0, 1, 1, 1, 1, 0,
            0, 0, 1, 1, 1, 0,
            0, 0, 0, 0, 0, 0,
        ]
    );
}

#[test]
fn se_opening_twice_equals_once() {
    let se = se_3x3();
    let once = opening(&field(), 6, 5, &se);
    assert_eq!(opening(&once, 6, 5, &se), once);
}

#[test]
fn se_closing_twice_equals_once() {
    let se = se_3x3();
    let once = closing(&field(), 6, 5, &se);
    assert_eq!(closing(&once, 6, 5, &se), once);
}

#[test]
fn se_opening_changes_only_ones() {
    let g = field();
    let o = opening(&g, 6, 5, &se_3x3());
    for i in 0..g.len() {
        if o[i] == 1 {
            assert_eq!(g[i], 1);
        }
        if g[i] != 1 {
            assert_eq!(o[i], g[i]);
        }
    }
}

#[test]
fn gradient_field_exact_and_in_range() {
    let r = gradient(&field(), 6, 5, &se_3x3());
    let mut expected = vec![1i8; 30];
    expected[9] = 0;
    expected[24] = 0;
    assert_eq!(r, expected);
    assert!(r.iter().all(|&v| -1 <= v && v <= 1));
}

#[test]
fn top_hat_marks_removed_ones() {
    let g = field();
    let se = se_3x3();
    let hat = top_hat(&g, 6, 5, &se);
    let o = opening(&g, 6, 5, &se);
    for i in 0..g.len() {
        let removed = g[i] == 1 && o[i] != 1;
        assert_eq!(hat[i], if removed { 1 } else { 0 });
    }
    let mut expected = vec![0i8; 30];
    for i in [7, 13, 20, 21, 29] {
        expected[i] = 1;
    }
    assert_eq!(hat, expected);
}

#[test]
fn black_hat_field_exact() {
    assert_eq!(
        black_hat(&field(), 6, 5, &se_3x3()),
        vec![
            0, 0, -1, -1, -1, 0,
            0, 0, 0, 0, 0, 1,
            0, 0, 0, 0, 0, 0,
            1, 0, 0, 0, 1, 0,
            0, 0, 0, 0, 0, -1,
        ]
    );
}

#[test]
fn cells_past_the_grid_are_untouched() {
    let g = vec![1i8, 0, 0, 0, 0, 0, 7, 1, -3];
    let se = se_3x3();
    assert_eq!(dilation(&g, 3, 2, &se), vec![1, 1, 0, 1, 1, 0, 7, 1, -3]);
    assert_eq!(erosion(&g, 3, 2, &se), vec![0, 0, 0, 0, 0, 0, 7, 1, -3]);
}

#[test]
fn hit_or_miss_covers_only_the_grid() {
    let g = vec![1i8, 0, 0, 0, 0, 0, 7, 1, -3];
    let r = hit_or_miss(&g, 3, 2, &[(0, 0)], &[(0, 1), (1, 0)]);
    assert_eq!(r, vec![1, 0, 0, 0, 0, 0]);
}

#[test]
fn asymmetric_element_looks_one_way() {
    let g = vec![0i8, 1, 0, 0, 0, 0, 0, 1];
    assert_eq!(dilation(&g, 4, 2, &[(0, 1)]), vec![1, 1, 0, 0, 0, 0, 1, 1]);
}

#[test]
fn empty_element_changes_nothing() {
    let g = vec![1i8, 0, 1, -1];
    assert_eq!(erosion(&g, 2, 2, &[]), g);
    assert_eq!(dilation(&g, 2, 2, &[]), g);
}

#[test]
fn dilation_keeps_far_negative_cells() {
    assert_eq!(dilation(&[0, -1, 0, 0, 0, 0], 3, 2, &se_3x3()), vec![0, -1, 0, 0, 0, 0]);
}

#[test]
fn reconstruct_is_stable_and_within_mask() {
    let marker = vec![0i8, 0, 0, 0, 0, 1, 0, 0, 0, 0, 0, 0, 0, 0, 0, 1];
    let mask = vec![0i8, 1, 1, 0, 0, 1, 0, 0, 1, 1, 0, 1, 0, 0, 0, 1];
    let r = reconstruct(&marker, &mask, 4, 4);
    assert_eq!(r, vec![0, 1, 1, 0, 0, 1, 0, 0, 1, 1, 0, 1, 0, 0, 0, 1]);
    assert_eq!(conditional_dilation(&r, &mask, 4, 4, &se_3x3()), r);
    assert_eq!(reconstruct(&r, &mask, 4, 4), r);
    for i in 0..r.len() {
        if marker[i] == 1 {
            assert_eq!(r[i], 1);
        }
        if r[i] != marker[i] {
            assert_eq!(mask[i], 1);
        }
    }
}

#[test]
fn hit_or_miss_reads_only_probed_cells() {
    let g: Vec<i8> = Vec::new();
    assert_eq!(hit_or_miss(&g, 2, 2, &[], &[]), vec![1, 1, 1, 1]);
    // a 2x1 grid over one cell: each scan stops at its first failing
    // offset, before reaching past the slice
    let short = vec![0i8];
    assert_eq!(hit_or_miss(&short, 2, 1, &[(0, -1), (0, 1)], &[]), vec![0, 0]);
}

#[test]
fn reconstruct_follows_diagonal_mask_paths_only() {
    let marker = vec![1i8, 0, 0, 0, 0, 0, 0, 0, 0, 0, 0, 0, 0, 0, 0, 0];
    let mask = vec![1i8, 0, 0, 0, 0, 1, 0, 0, 0, 0, 1, 0, 1, 0, 0, 1];
    // the diagonal is 8-connected to the marker; the cell at 12 is not
    assert_eq!(
        reconstruct(&marker, &mask, 4, 4),
        vec![1, 0, 0, 0, 0, 1, 0, 0, 0, 0, 1, 0, 0, 0, 0, 1]
    );
}

#[test]
fn empty_grids_accept_any_dimensions() {
    let g = vec![1i8, -1];
    let se = se_3x3();
    assert_eq!(dilation(&g, 0, 1usize << 31, &se), g);
    assert_eq!(erosion(&g, 1usize << 31, 0, &se), g);
}
