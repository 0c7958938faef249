use lau_algebraic_topology::cw_complex::{
    cw_cp2, cw_klein_bottle, cw_rp2, cw_s1, cw_s2, cw_sn, cw_torus, CWComplex,
};
use lau_algebraic_topology::matrix::ZMatrix;

#[test]
fn test_cw_s1_homology() {
    let s1 = cw_s1();
    let h0 = s1.homology(0).unwrap();
    assert_eq!(h0.free_rank, 1);
    let h1 = s1.homology(1).unwrap();
    assert_eq!(h1.free_rank, 1);
}

#[test]
fn test_cw_s2_homology() {
    let s2 = cw_s2();
    let h0 = s2.homology(0).unwrap();
    assert_eq!(h0.free_rank, 1);
    let h2 = s2.homology(2).unwrap();
    assert_eq!(h2.free_rank, 1);
}

#[test]
fn test_cw_s3_homology() {
    let s3 = cw_sn(3);
    let h0 = s3.homology(0).unwrap();
    assert_eq!(h0.free_rank, 1);
    let h3 = s3.homology(3).unwrap();
    assert_eq!(h3.free_rank, 1);
}

#[test]
fn test_cw_rp2_homology() {
    let rp2 = cw_rp2();
    let h0 = rp2.homology(0).unwrap();
    assert_eq!(h0.free_rank, 1);
    // H_1(RP²) = Z/2
    let h1 = rp2.homology(1).unwrap();
    assert_eq!(h1.torsion, vec![2]);
    // H_2(RP²) = 0
    let h2 = rp2.homology(2).unwrap();
    assert!(h2.is_trivial());
}

#[test]
fn test_cw_torus_homology() {
    let t2 = cw_torus();
    let h0 = t2.homology(0).unwrap();
    assert_eq!(h0.free_rank, 1);
    let h1 = t2.homology(1).unwrap();
    assert_eq!(h1.free_rank, 2);
    let h2 = t2.homology(2).unwrap();
    assert_eq!(h2.free_rank, 1);
}

#[test]
fn test_cw_klein_bottle_homology() {
    let kb = cw_klein_bottle();
    let h0 = kb.homology(0).unwrap();
    assert_eq!(h0.free_rank, 1);
    let h1 = kb.homology(1).unwrap();
    assert_eq!(h1.free_rank, 1);
    assert_eq!(h1.torsion, vec![2]); // Z ⊕ Z/2
}

#[test]
fn test_cw_cp2_homology() {
    let cp2 = cw_cp2();
    let h0 = cp2.homology(0).unwrap();
    assert_eq!(h0.free_rank, 1);
    let h2 = cp2.homology(2).unwrap();
    assert_eq!(h2.free_rank, 1);
    let h4 = cp2.homology(4).unwrap();
    assert_eq!(h4.free_rank, 1);
}

#[test]
fn test_cw_euler_characteristic() {
    let t2 = cw_torus();
    // 1 - 2 + 1 = 0
    assert_eq!(t2.euler_characteristic(), 0);

    let s2 = cw_s2();
    // 1 - 0 + 1 = 2
    assert_eq!(s2.euler_characteristic(), 2);
}

#[test]
fn cw_cell_counts_and_dimension() {
    let t2 = cw_torus();
    assert_eq!(t2.num_cells(0), 1);
    assert_eq!(t2.num_cells(1), 2);
    assert_eq!(t2.num_cells(2), 1);
    assert_eq!(t2.num_cells(3), 0);
    assert_eq!(t2.dimension(), 2);
    assert_eq!(t2.name, "T^2");
    let cp2 = cw_cp2();
    assert_eq!(cp2.dimension(), 4);
    assert_eq!(cp2.euler_characteristic(), 3);
}

#[test]
fn cw_empty_complex() {
    let cw = CWComplex::new("empty");
    assert_eq!(cw.dimension(), 0);
    assert_eq!(cw.num_cells(0), 0);
    assert_eq!(cw.euler_characteristic(), 0);
    assert!(cw.homology(0).unwrap().is_trivial());
}

#[test]
fn cw_dimension_ignores_empty_top_levels() {
    let mut cw = CWComplex::new("X");
    cw.add_cell(0, "v");
    cw.add_cell(3, "w");
    assert_eq!(cw.dimension(), 3);
    assert_eq!(cw.num_cells(1), 0);
    let cc = cw.chain_complex();
    assert_eq!(cc.ranks, vec![1, 0, 0, 1]);
    assert_eq!(cc.boundary_maps.len(), 3);
    assert_eq!(cc.boundary_maps[0].nrows(), 1);
    assert_eq!(cc.boundary_maps[0].ncols(), 0);
}

#[test]
fn cw_set_attaching_map_used_in_chain_complex() {
    let mut cw = CWComplex::new("disk");
    cw.add_cell(0, "a");
    cw.add_cell(0, "b");
    cw.add_cell(1, "e");
    cw.set_attaching_map(0, ZMatrix::from_row_slice(2, 1, &[-1, 1]));
    let h0 = cw.homology(0).unwrap();
    assert_eq!(h0.free_rank, 1);
    let h1 = cw.homology(1).unwrap();
    assert!(h1.is_trivial());
    assert_eq!(cw.euler_characteristic(), 1);
}

#[test]
fn cw_sphere_zero_has_two_points() {
    let s0 = cw_sn(0);
    assert_eq!(s0.num_cells(0), 2);
    assert_eq!(s0.dimension(), 0);
    assert_eq!(s0.homology(0).unwrap().free_rank, 2);
    assert_eq!(s0.name, "S^0");
}

#[test]
fn cw_rp2_euler() {
    assert_eq!(cw_rp2().euler_characteristic(), 1);
    assert_eq!(cw_klein_bottle().euler_characteristic(), 0);
    assert_eq!(cw_s1().euler_characteristic(), 0);
}
