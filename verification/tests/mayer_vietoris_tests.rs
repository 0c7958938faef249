use lau_algebraic_topology::chain_complex::HomologyGroup;
use lau_algebraic_topology::mayer_vietoris::{mayer_vietoris_homology, sphere_homology_mv, wedge_s1_s1_homology};

#[test]
fn test_mv_sphere_1() {
    let h = sphere_homology_mv(1);
    assert_eq!(h[0].free_rank, 1);
    let h1 = h.iter().find(|g| g.dimension == 1).unwrap();
    assert_eq!(h1.free_rank, 1);
}

#[test]
fn test_mv_sphere_2() {
    let h = sphere_homology_mv(2);
    assert_eq!(h[0].free_rank, 1);
    let h1 = h.iter().find(|g| g.dimension == 1);
    assert!(h1.unwrap().is_trivial());
    let h2 = h.iter().find(|g| g.dimension == 2).unwrap();
    assert_eq!(h2.free_rank, 1);
}

#[test]
fn test_mv_sphere_3() {
    let h = sphere_homology_mv(3);
    assert_eq!(h[0].free_rank, 1);
    let h3 = h.iter().find(|g| g.dimension == 3).unwrap();
    assert_eq!(h3.free_rank, 1);
}

#[test]
fn test_wedge_s1_s1() {
    let result = wedge_s1_s1_homology();
    let h0 = result.homology.iter().find(|g| g.dimension == 0).unwrap();
    assert_eq!(h0.free_rank, 1);
    let h1 = result.homology.iter().find(|g| g.dimension == 1).unwrap();
    assert_eq!(h1.free_rank, 2);
}

#[test]
fn test_mv_union_disks() {
    let hom_a = vec![HomologyGroup { dimension: 0, free_rank: 1, torsion: vec![] }];
    let hom_b = vec![HomologyGroup { dimension: 0, free_rank: 1, torsion: vec![] }];
    let hom_ab = vec![HomologyGroup { dimension: 0, free_rank: 1, torsion: vec![] }];
    let result = mayer_vietoris_homology(&hom_a, &hom_b, &hom_ab, 1);
    assert_eq!(result.homology[0].free_rank, 1);
}

#[test]
fn mv_sphere_zero_is_two_points() {
    let h = sphere_homology_mv(0);
    assert_eq!(h.len(), 1);
    assert_eq!(h[0].free_rank, 2);
}

#[test]
fn mv_sphere_ranks_for_larger_n() {
    let h = sphere_homology_mv(5);
    assert_eq!(h.len(), 6);
    let ranks: Vec<i64> = h.iter().map(|g| g.free_rank).collect();
    assert_eq!(ranks, vec![1, 0, 0, 0, 0, 1]);
    for (k, g) in h.iter().enumerate() {
        assert_eq!(g.dimension, k);
        assert!(g.torsion.is_empty());
    }
}

#[test]
fn mv_rank_formula_on_circle_from_two_arcs() {
    // S^1 = two arcs meeting in two points
    let arc = vec![HomologyGroup { dimension: 0, free_rank: 1, torsion: vec![] }];
    let two_points = vec![HomologyGroup { dimension: 0, free_rank: 2, torsion: vec![] }];
    let result = mayer_vietoris_homology(&arc, &arc, &two_points, 1);
    assert_eq!(result.homology.len(), 2);
    // rank H_0 = 1 + 1 - 2 = 0 by the formula, rank H_1 = 0 + 0 - 0 + 2 - 1 - 1 = 0
    assert_eq!(result.homology[0].free_rank, 0);
    assert_eq!(result.homology[1].free_rank, 0);
    assert_eq!(result.homology_ab[0].free_rank, 2);
    assert_eq!(result.homology_a.len(), 1);
}

#[test]
fn mv_missing_dimensions_count_as_zero() {
    let a = vec![HomologyGroup { dimension: 2, free_rank: 3, torsion: vec![] }];
    let empty: Vec<HomologyGroup> = vec![];
    let result = mayer_vietoris_homology(&a, &empty, &empty, 3);
    let ranks: Vec<i64> = result.homology.iter().map(|g| g.free_rank).collect();
    assert_eq!(ranks, vec![0, 0, 3, -3]);
}

#[test]
fn wedge_parts() {
    let result = wedge_s1_s1_homology();
    assert_eq!(result.homology_a.len(), 2);
    assert_eq!(result.homology_b[1].free_rank, 1);
    assert_eq!(result.homology_ab.len(), 1);
}
