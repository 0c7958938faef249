use lau_algebraic_topology::euler::{euler_from_betti, euler_from_homology_ranks, EulerInfo};

#[test]
fn test_euler_sphere_0() {
    let info = EulerInfo::sphere(0);
    assert_eq!(info.euler, 2); // Two points
}

#[test]
fn test_euler_sphere_1() {
    let info = EulerInfo::sphere(1);
    assert_eq!(info.euler, 0);
}

#[test]
fn test_euler_sphere_2() {
    let info = EulerInfo::sphere(2);
    assert_eq!(info.euler, 2);
}

#[test]
fn test_euler_sphere_even() {
    for n in (0..10).step_by(2) {
        let info = EulerInfo::sphere(n);
        assert_eq!(info.euler, 2, "S^{} should have χ=2", n);
    }
}

#[test]
fn test_euler_sphere_odd() {
    for n in (1..10).step_by(2) {
        let info = EulerInfo::sphere(n);
        assert_eq!(info.euler, 0, "S^{} should have χ=0", n);
    }
}

#[test]
fn test_euler_torus_2() {
    let info = EulerInfo::torus(2);
    assert_eq!(info.euler, 0); // 1 - 2 + 1 = 0
}

#[test]
fn test_euler_torus_3() {
    let info = EulerInfo::torus(3);
    // β = (1, 3, 3, 1) → χ = 1 - 3 + 3 - 1 = 0
    assert_eq!(info.euler, 0);
}

#[test]
fn test_euler_rp2() {
    let info = EulerInfo::rp2();
    assert_eq!(info.euler, 1);
}

#[test]
fn test_euler_klein() {
    let info = EulerInfo::klein_bottle();
    assert_eq!(info.euler, 0);
}

#[test]
fn test_euler_cp2() {
    let info = EulerInfo::cpn(2);
    assert_eq!(info.euler, 3); // 1 + 1 + 1 = 3
}

#[test]
fn test_euler_from_betti() {
    assert_eq!(euler_from_betti(&[1, 0, 1]), 2);
    assert_eq!(euler_from_betti(&[1, 2, 1]), 0);
    assert_eq!(euler_from_betti(&[1, 1]), 0);
}

#[test]
fn sphere_info_names_and_betti() {
    let info = EulerInfo::sphere(3);
    assert_eq!(info.space, "S^3");
    assert_eq!(info.betti, vec![1, 0, 0, 1]);
    let zero = EulerInfo::sphere(0);
    assert_eq!(zero.betti, vec![2]);
    assert_eq!(zero.space, "S^0");
}

#[test]
fn torus_info_binomial_betti() {
    let info = EulerInfo::torus(4);
    assert_eq!(info.betti, vec![1, 4, 6, 4, 1]);
    assert_eq!(info.euler, 0);
    assert_eq!(info.space, "T^4");
    let t0 = EulerInfo::torus(0);
    assert_eq!(t0.betti, vec![1]);
    assert_eq!(t0.euler, 1);
}

#[test]
fn cpn_info_betti_and_euler() {
    let info = EulerInfo::cpn(3);
    assert_eq!(info.betti, vec![1, 0, 1, 0, 1, 0, 1]);
    assert_eq!(info.euler, 4);
    assert_eq!(info.space, "CP^3");
}

#[test]
fn point_and_fixed_spaces() {
    let p = EulerInfo::point();
    assert_eq!(p.euler, 1);
    assert_eq!(p.betti, vec![1]);
    assert_eq!(EulerInfo::rp2().betti, vec![1, 0, 0]);
    assert_eq!(EulerInfo::klein_bottle().betti, vec![1, 1, 0]);
}

#[test]
fn euler_from_homology_ranks_alternates() {
    assert_eq!(euler_from_homology_ranks(&[1, 2, 1]), 0);
    assert_eq!(euler_from_homology_ranks(&[3, -1, 2]), 6);
    assert_eq!(euler_from_homology_ranks(&[]), 0);
    assert_eq!(euler_from_betti(&[]), 0);
}
