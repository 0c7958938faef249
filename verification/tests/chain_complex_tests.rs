use lau_algebraic_topology::chain_complex::ChainComplex;
use lau_algebraic_topology::matrix::ZMatrix;

#[test]
fn test_trivial_complex() {
    let cc = ChainComplex::trivial();
    assert!(cc.homology(0).unwrap().is_trivial());
}

#[test]
fn test_smith_normal_form_identity() {
    let mat = ZMatrix::from_row_slice(2, 2, &[1, 0, 0, 1]);
    let (_, s, _) = ChainComplex::smith_normal_form(&mat).unwrap();
    let d = ChainComplex::diagonal_entries(&s);
    assert_eq!(d, vec![1, 1]);
}

#[test]
fn test_smith_normal_form_diagonal() {
    let mat = ZMatrix::from_row_slice(2, 2, &[2, 0, 0, 3]);
    let (_, s, _) = ChainComplex::smith_normal_form(&mat).unwrap();
    let d = ChainComplex::diagonal_entries(&s);
    assert_eq!(d, vec![1, 6]);
}

#[test]
fn test_kernel_dimension() {
    let mat = ZMatrix::from_row_slice(1, 2, &[1, -1]);
    assert_eq!(ChainComplex::kernel_dimension(&mat), Some(1));
}

#[test]
fn test_image_rank() {
    let mat = ZMatrix::from_row_slice(1, 2, &[1, -1]);
    assert_eq!(ChainComplex::image_rank(&mat), Some(1));
}

#[test]
fn smith_normal_form_of_i64_min_overflows() {
    let mat = ZMatrix::from_row_slice(1, 1, &[i64::MIN]);
    assert!(ChainComplex::smith_normal_form(&mat).is_none());
    assert!(ChainComplex::kernel_dimension(&mat).is_none());
}

#[test]
fn homology_rank_difference_overflow_is_none() {
    let cc = ChainComplex::from_ranks_and_maps(vec![1usize << 63], vec![ZMatrix::from_row_slice(1, 1, &[1])]);
    assert!(cc.homology(0).is_none());
}

#[test]
fn smith_normal_form_properties() {
    let mat = ZMatrix::from_row_slice(2, 3, &[2, 4, 4, -6, 6, 12]);
    let (u, s, v) = ChainComplex::smith_normal_form(&mat).unwrap();
    assert_eq!(ChainComplex::diagonal_entries(&s), vec![2, 6]);
    assert_eq!(s.get(0, 1), 0);
    assert_eq!(s.get(1, 2), 0);
    assert_eq!(u.nrows(), 2);
    assert_eq!(v.nrows(), 3);
    assert_eq!(ChainComplex::kernel_dimension(&mat), Some(1));
    assert_eq!(ChainComplex::image_rank(&mat), Some(2));
}

#[test]
fn homology_of_rp2_cells_and_betti() {
    // C_2 -> C_1 -> C_0 with d_2 = [2], d_1 = [0]
    let cc = ChainComplex::from_ranks_and_maps(
        vec![1, 1, 1],
        vec![ZMatrix::from_row_slice(1, 1, &[0]), ZMatrix::from_row_slice(1, 1, &[2])],
    );
    let h1 = cc.homology(1).unwrap();
    assert_eq!(h1.free_rank, 0);
    assert_eq!(h1.torsion, vec![2]);
    assert_eq!(h1.to_display_string(), "H_1 = Z^0 ⊕ Z/2");
    assert_eq!(cc.betti_numbers(2).unwrap(), vec![1, 0, 0]);
    assert_eq!(cc.all_homology(3).unwrap().len(), 4);
    assert!(cc.is_valid());
    assert_eq!(h1.rank(), 0);
    assert!(!h1.is_trivial());
}

#[test]
fn is_valid_detects_nonzero_composite() {
    let cc = ChainComplex::from_ranks_and_maps(
        vec![1, 1, 1],
        vec![ZMatrix::from_row_slice(1, 1, &[1]), ZMatrix::from_row_slice(1, 1, &[1])],
    );
    assert!(!cc.is_valid());
}

#[test]
fn zero_boundaries_give_free_homology() {
    // the cells of S^2: one 0-cell, one 2-cell, zero boundary maps
    let cc = ChainComplex::from_ranks_and_maps(
        vec![1, 0, 1],
        vec![ZMatrix::zeros(1, 0), ZMatrix::zeros(0, 1)],
    );
    let hs = cc.all_homology(2).unwrap();
    assert_eq!(hs.len(), 3);
    assert_eq!(hs[0].free_rank, 1);
    assert!(hs[1].is_trivial());
    assert_eq!(hs[2].free_rank, 1);
    assert!(hs[2].torsion.is_empty());
    assert_eq!(cc.betti_numbers(2).unwrap(), vec![1, 0, 1]);
}

#[test]
fn zero_matrix_needs_no_reduction() {
    let mat = ZMatrix::zeros(2, 3);
    let (u, s, v) = ChainComplex::smith_normal_form(&mat).unwrap();
    assert_eq!(ChainComplex::diagonal_entries(&s), vec![0, 0]);
    assert_eq!(u.get(1, 1), 1);
    assert_eq!(u.get(0, 1), 0);
    assert_eq!(v.get(2, 2), 1);
    assert_eq!(ChainComplex::kernel_dimension(&mat), Some(3));
    assert_eq!(ChainComplex::image_rank(&mat), Some(0));
}

#[test]
fn zero_map_in_middle_of_complex() {
    // two points and one loop: C_1 = Z, C_0 = Z^2 with the zero map
    let cc = ChainComplex::from_ranks_and_maps(vec![2, 1], vec![ZMatrix::zeros(2, 1)]);
    assert_eq!(cc.betti_numbers(1).unwrap(), vec![2, 1]);
}

#[test]
fn rank_nullity_on_examples() {
    for (r, c, e) in [
        (1usize, 2usize, vec![1i64, -1]),
        (2, 3, vec![2, 4, 4, -6, 6, 12]),
        (3, 3, vec![1, 2, 3, 4, 5, 6, 7, 8, 9]),
        (2, 2, vec![0, 0, 0, 0]),
    ] {
        let m = ZMatrix::from_row_slice(r, c, &e);
        let k = ChainComplex::kernel_dimension(&m).unwrap();
        let i = ChainComplex::image_rank(&m).unwrap();
        assert_eq!(k + i, c);
    }
    let m = ZMatrix::from_row_slice(3, 3, &[1, 2, 3, 4, 5, 6, 7, 8, 9]);
    assert_eq!(ChainComplex::image_rank(&m), Some(2));
}

#[test]
fn smith_form_of_diagonal_two_three() {
    let mat = ZMatrix::from_row_slice(2, 2, &[2, 0, 0, 3]);
    let (u, s, v) = ChainComplex::smith_normal_form(&mat).unwrap();
    assert_eq!(ChainComplex::diagonal_entries(&s), vec![1, 6]);
    assert_eq!(s.get(0, 1), 0);
    assert_eq!(s.get(1, 0), 0);
    // s == u * mat * v
    for i in 0..2 {
        for j in 0..2 {
            let mut x = 0;
            for a in 0..2 {
                for b in 0..2 {
                    x += u.get(i, a) * mat.get(a, b) * v.get(b, j);
                }
            }
            assert_eq!(x, s.get(i, j));
        }
    }
}
