use lau_algebraic_topology::chain_complex::HomologyGroup;
use lau_algebraic_topology::poincare::{
    check_poincare_duality, intersection_form, verify_poincare_s2, verify_poincare_s3, verify_poincare_sn,
    verify_poincare_torus,
};

#[test]
fn test_poincare_s2() {
    let result = verify_poincare_s2();
    assert!(result.holds);
}

#[test]
fn test_poincare_torus() {
    let result = verify_poincare_torus();
    assert!(result.holds);
}

#[test]
fn test_poincare_s3() {
    let result = verify_poincare_s3();
    assert!(result.holds);
}

#[test]
fn test_poincare_s4() {
    let result = verify_poincare_sn(4);
    assert!(result.holds);
}

#[test]
fn test_poincare_s5() {
    let result = verify_poincare_sn(5);
    assert!(result.holds);
}

#[test]
fn test_intersection_form() {
    let form = intersection_form(1);
    assert_eq!(form.rank, 1);
    assert_eq!(form.signature, 1);
}

#[test]
fn test_poincare_fails_for_non_manifold() {
    // A wedge of circles doesn't satisfy Poincaré duality
    let homology = vec![
        HomologyGroup { dimension: 0, free_rank: 1, torsion: vec![] },
        HomologyGroup { dimension: 1, free_rank: 3, torsion: vec![] },
    ];
    let result = check_poincare_duality(&homology, 1);
    assert!(!result.holds);
}

#[test]
fn poincare_details_texts() {
    let ok = verify_poincare_s2();
    assert_eq!(ok.details, "Poincaré duality verified: H^k ≅ H_{n-k} for all k");
    assert_eq!(ok.dimension, 2);
    let homology = vec![
        HomologyGroup { dimension: 0, free_rank: 1, torsion: vec![] },
        HomologyGroup { dimension: 1, free_rank: 3, torsion: vec![] },
    ];
    let bad = check_poincare_duality(&homology, 1);
    assert_eq!(bad.details, "k=0: H^0 has rank 1, H_1 has rank 3; k=1: H^1 has rank 3, H_0 has rank 1");
    assert_eq!(bad.dimension, 1);
}

#[test]
fn poincare_missing_groups_are_skipped() {
    let homology = vec![HomologyGroup { dimension: 0, free_rank: 1, torsion: vec![] }];
    let result = check_poincare_duality(&homology, 3);
    assert!(result.holds);
    let empty: Vec<HomologyGroup> = vec![];
    assert!(check_poincare_duality(&empty, 0).holds);
}

#[test]
fn poincare_sn_small_cases() {
    assert!(verify_poincare_sn(0).holds);
    assert!(verify_poincare_sn(1).holds);
    assert_eq!(verify_poincare_sn(7).dimension, 7);
}

#[test]
fn intersection_form_signature_matches_rank() {
    let form = intersection_form(4);
    assert_eq!(form.rank, 4);
    assert_eq!(form.signature, 4);
}
