use lau_algebraic_topology::chain_complex::HomologyGroup;
use lau_algebraic_topology::cohomology::{
    all_cohomology, cohomology_from_homology, cohomology_z2, kunneth, kunneth_all, CohomologyRing, CupProduct,
};
use lau_algebraic_topology::cw_complex;
use lau_algebraic_topology::matrix::ZMatrix;
use lau_algebraic_topology::simplicial;

#[test]
fn test_cohomology_s1() {
    let s1 = simplicial::circle();
    let cc = s1.chain_complex();
    let h0 = cc.homology(0).unwrap();
    let h1 = cc.homology(1).unwrap();
    let coh0 = cohomology_from_homology(&h0, &HomologyGroup { dimension: 0, free_rank: 0, torsion: vec![] });
    assert_eq!(coh0.free_rank, 1);
    let coh1 = cohomology_from_homology(&h1, &h0);
    assert_eq!(coh1.free_rank, 1);
}

#[test]
fn test_cohomology_s2() {
    let s2 = simplicial::sphere_2();
    let cc = s2.chain_complex();
    let h2 = cc.homology(2).unwrap();
    let h1 = cc.homology(1).unwrap();
    let coh2 = cohomology_from_homology(&h2, &h1);
    assert_eq!(coh2.free_rank, 1);
}

#[test]
fn test_kunneth_s1_s1() {
    // S^1 × S^1 = T^2
    let hom_s1 = vec![
        HomologyGroup { dimension: 0, free_rank: 1, torsion: vec![] },
        HomologyGroup { dimension: 1, free_rank: 1, torsion: vec![] },
    ];
    let result = kunneth_all(&hom_s1, &hom_s1, 2);
    assert_eq!(result[0].free_rank, 1); // H_0 = Z
    assert_eq!(result[1].free_rank, 2); // H_1 = Z²
    assert_eq!(result[2].free_rank, 1); // H_2 = Z
}

#[test]
fn test_kunneth_s1_s2() {
    // S^1 × S^2
    let hom_s1 = vec![
        HomologyGroup { dimension: 0, free_rank: 1, torsion: vec![] },
        HomologyGroup { dimension: 1, free_rank: 1, torsion: vec![] },
    ];
    let hom_s2 = vec![
        HomologyGroup { dimension: 0, free_rank: 1, torsion: vec![] },
        HomologyGroup { dimension: 1, free_rank: 0, torsion: vec![] },
        HomologyGroup { dimension: 2, free_rank: 1, torsion: vec![] },
    ];
    let result = kunneth_all(&hom_s1, &hom_s2, 3);
    assert_eq!(result[0].free_rank, 1);
    assert_eq!(result[1].free_rank, 1);
    assert_eq!(result[2].free_rank, 1);
    assert_eq!(result[3].free_rank, 1);
}

#[test]
fn test_cup_product_creation() {
    let cp = CupProduct::new(1, 1, ZMatrix::from_row_slice(1, 1, &[1]));
    assert_eq!(cp.target_dim, 2);
    let result = cp.compute(&[1], &[1]);
    assert_eq!(result, vec![1]);
}

#[test]
fn test_cohomology_z2() {
    let s1 = simplicial::circle();
    let cc = s1.chain_complex();
    let coh0 = cohomology_z2(&cc, 0).unwrap();
    assert_eq!(coh0.free_rank, 1);
}

#[test]
fn test_cohomology_rp2() {
    let rp2 = cw_complex::cw_rp2();
    let cc = rp2.chain_complex();
    let h1 = cc.homology(1).unwrap();
    // H^2 = Hom(H_2, Z) ⊕ Ext(H_1, Z) = 0 ⊕ Ext(Z/2, Z) = Z/2
    let coh2 = cohomology_from_homology(&cc.homology(2).unwrap(), &h1);
    assert!(coh2.torsion.contains(&2));
}

#[test]
fn uct_moves_torsion_up_one_dimension() {
    let h1 = HomologyGroup { dimension: 1, free_rank: 0, torsion: vec![2, 4] };
    let h2 = HomologyGroup { dimension: 2, free_rank: 3, torsion: vec![] };
    let c = cohomology_from_homology(&h2, &h1);
    assert_eq!(c.dimension, 2);
    assert_eq!(c.free_rank, 3);
    assert_eq!(c.torsion, vec![2, 4]);
    assert!(!c.is_trivial());
}

#[test]
fn all_cohomology_of_rp2_homology() {
    let hom = vec![
        HomologyGroup { dimension: 0, free_rank: 1, torsion: vec![] },
        HomologyGroup { dimension: 1, free_rank: 0, torsion: vec![2] },
        HomologyGroup { dimension: 2, free_rank: 0, torsion: vec![] },
    ];
    let coh = all_cohomology(&hom);
    assert_eq!(coh.len(), 3);
    assert_eq!(coh[0].free_rank, 1);
    assert!(coh[0].torsion.is_empty());
    assert!(coh[1].is_trivial());
    assert_eq!(coh[2].torsion, vec![2]);
}

#[test]
fn kunneth_tor_term() {
    // X = Y = Moore space with H_0 = Z, H_1 = Z/2
    let m = vec![
        HomologyGroup { dimension: 0, free_rank: 1, torsion: vec![] },
        HomologyGroup { dimension: 1, free_rank: 0, torsion: vec![2] },
    ];
    let h2 = kunneth(&m, &m, 2);
    assert_eq!(h2.dimension, 2);
    assert_eq!(h2.free_rank, 0);
    // Z/2 ⊗ Z/2 = Z/2 from p = q = 1
    assert_eq!(h2.torsion, vec![2]);
    let h1 = kunneth(&m, &m, 1);
    assert_eq!(h1.free_rank, 0);
    // H_0 ⊗ H_1 = Z ⊗ Z/2 and H_1 ⊗ H_0 = Z/2 ⊗ Z
    assert_eq!(h1.torsion, vec![2, 2]);
    // Tor(Z/2, Z/2) = Z/2 from p = q = 1 with p + q = 2
    let h3 = kunneth(&m, &m, 3);
    assert_eq!(h3.torsion, vec![2]);
}

#[test]
fn cup_product_value() {
    let cp = CupProduct::new(1, 2, ZMatrix::from_row_slice(2, 2, &[1, 2, 3, 4]));
    assert_eq!(cp.target_dim, 3);
    assert_eq!(cp.p, 1);
    assert_eq!(cp.q, 2);
    // (1, 1) [[1, 2], [3, 4]] (1, 0)^T = 4
    assert_eq!(cp.compute(&[1, 1], &[1, 0]), vec![4]);
}

#[test]
fn ring_rp2_groups() {
    let ring = CohomologyRing::ring_rp2_z2();
    assert_eq!(ring.groups.len(), 3);
    assert_eq!(ring.groups[1].torsion, vec![2]);
    assert!(ring.cup_products.is_empty());
}

#[test]
fn cohomology_z2_counts_torsion() {
    let rp2 = cw_complex::cw_rp2();
    let cc = rp2.chain_complex();
    let c1 = cohomology_z2(&cc, 1).unwrap();
    assert_eq!(c1.free_rank, 1);
    assert!(c1.torsion.is_empty());
}

#[test]
fn kunneth_rp2_times_circle() {
    let rp2 = vec![
        HomologyGroup { dimension: 0, free_rank: 1, torsion: vec![] },
        HomologyGroup { dimension: 1, free_rank: 0, torsion: vec![2] },
        HomologyGroup { dimension: 2, free_rank: 0, torsion: vec![] },
    ];
    let s1 = vec![
        HomologyGroup { dimension: 0, free_rank: 1, torsion: vec![] },
        HomologyGroup { dimension: 1, free_rank: 1, torsion: vec![] },
    ];
    // H_1(RP² × S¹) = H_1(RP²) ⊗ H_0(S¹) ⊕ H_0(RP²) ⊗ H_1(S¹) = Z/2 ⊕ Z
    let h1 = kunneth(&rp2, &s1, 1);
    assert_eq!(h1.dimension, 1);
    assert_eq!(h1.free_rank, 1);
    assert_eq!(h1.torsion, vec![2]);
    // H_2 = H_1(RP²) ⊗ H_1(S¹) = Z/2
    let h2 = kunneth(&rp2, &s1, 2);
    assert_eq!(h2.free_rank, 0);
    assert_eq!(h2.torsion, vec![2]);
}

#[test]
fn cohomology_z2_of_rp2_has_ext_term() {
    // H*(RP²; Z/2) = Z/2[a]/(a³): one Z/2 in each of dimensions 0, 1, 2
    let cc = cw_complex::cw_rp2().chain_complex();
    for n in 0..3 {
        let c = cohomology_z2(&cc, n).unwrap();
        assert_eq!(c.dimension, n);
        assert_eq!(c.free_rank, 1);
        assert!(c.torsion.is_empty());
    }
}

#[test]
fn kunneth_is_symmetric_on_examples() {
    let rp2 = vec![
        HomologyGroup { dimension: 0, free_rank: 1, torsion: vec![] },
        HomologyGroup { dimension: 1, free_rank: 0, torsion: vec![2] },
        HomologyGroup { dimension: 2, free_rank: 0, torsion: vec![] },
    ];
    let m3 = vec![
        HomologyGroup { dimension: 0, free_rank: 1, torsion: vec![] },
        HomologyGroup { dimension: 1, free_rank: 2, torsion: vec![3, 6] },
    ];
    for n in 0..4 {
        let a = kunneth(&rp2, &m3, n);
        let b = kunneth(&m3, &rp2, n);
        assert_eq!(a.free_rank, b.free_rank);
        let mut ta = a.torsion.clone();
        let mut tb = b.torsion.clone();
        ta.sort();
        tb.sort();
        assert_eq!(ta, tb);
    }
}
