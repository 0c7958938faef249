use lau_algebraic_topology::homotopy::{pi1_s1, pi1_space, pik_sn, pin_s1, pin_sn, FundamentalGroup};

#[test]
fn test_pi1_s1() {
    let g = pi1_s1();
    assert_eq!(g.description, "Z (free group on 1 generator)");
}

#[test]
fn test_pin_s1_trivial() {
    let g = pin_s1(2);
    assert_eq!(g.description, "0 (trivial)");
}

#[test]
fn test_pi1_sn() {
    let g = pi1_space("S^2");
    assert!(g.description.contains("0"));
}

#[test]
fn test_pi1_torus() {
    let g = pi1_space("T^2");
    assert!(g.description.contains("Z × Z"));
}

#[test]
fn test_pi1_rp2() {
    let g = pi1_space("RP^2");
    assert!(g.description.contains("Z/2"));
}

#[test]
fn test_fundamental_group_s1() {
    let fg = FundamentalGroup::of_s1();
    assert_eq!(fg.num_generators, 1);
    assert!(fg.relations.is_empty());
}

#[test]
fn test_fundamental_group_torus() {
    let fg = FundamentalGroup::of_torus();
    assert_eq!(fg.num_generators, 2);
    assert!(fg.is_abelian);
}

#[test]
fn test_fundamental_group_rp2() {
    let fg = FundamentalGroup::of_rp2();
    assert_eq!(fg.num_generators, 1);
    assert!(!fg.is_abelian);
}

#[test]
fn test_pik_sn_identity() {
    let g = pik_sn(2, 2);
    assert_eq!(g.description, "Z");
}

#[test]
fn test_pik_sn_below() {
    let g = pik_sn(1, 2);
    assert!(g.description.contains("0"));
}

#[test]
fn test_pi1_klein() {
    let g = pi1_space("Klein bottle");
    assert!(g.description.contains("Z"));
}

#[test]
fn pin_sn_names_and_abelian() {
    let g = pin_sn(5);
    assert_eq!(g.space, "S^5");
    assert_eq!(g.dimension, 5);
    assert!(g.is_abelian);
    assert_eq!(g.description, "Z");
    assert!(pin_sn(1).is_abelian);
}

#[test]
fn pik_sn_known_and_unknown_cases() {
    assert_eq!(pik_sn(3, 2).description, "Z");
    assert_eq!(pik_sn(4, 2).description, "Z/2");
    assert_eq!(pik_sn(4, 3).description, "Z/2");
    assert_eq!(pik_sn(5, 1).description, "0 (trivial)");
    assert_eq!(pik_sn(5, 1).space, "S^1");
    let u = pik_sn(7, 3);
    assert_eq!(u.description, "Unknown / complex");
    assert_eq!(u.space, "S^3");
    assert_eq!(u.dimension, 7);
    let below = pik_sn(1, 4);
    assert_eq!(below.space, "S^4");
    assert!(below.is_abelian);
}

#[test]
fn pi1_space_aliases_and_unknown() {
    assert_eq!(pi1_space("torus").space, "T^2");
    assert_eq!(pi1_space("RP²").space, "RP²");
    assert_eq!(pi1_space("Klein").description, "Z ⋊ Z (semidirect product)");
    assert_eq!(pi1_space("point").description, "0 (trivial)");
    assert_eq!(pi1_space("S^n").description, "0 (simply connected)");
    assert_eq!(pi1_space("S^n").space, "S^n");
    let other = pi1_space("genus-2 surface");
    assert_eq!(other.description, "Unknown");
    assert_eq!(other.space, "genus-2 surface");
    assert!(other.is_abelian);
    assert_eq!(pi1_space("S^1").description, "Z (free group on 1 generator)");
}

#[test]
fn fundamental_group_wedge() {
    let fg = FundamentalGroup::of_wedge_circles(3);
    assert_eq!(fg.num_generators, 3);
    assert_eq!(fg.description, "Free group F_3");
    assert!(fg.relations.is_empty());
    assert_eq!(FundamentalGroup::of_rp2().relations, vec!["a^2".to_string()]);
    assert_eq!(FundamentalGroup::of_torus().relations, vec!["aba^{-1}b^{-1}".to_string()]);
}

#[test]
fn sphere_homotopy_table() {
    let expected = [
        [("Z", 1, 1), ("0 (trivial)", 1, 2), ("0 (trivial)", 1, 3), ("0 (trivial)", 1, 4)],
        [("0 (trivial)", 2, 1), ("Z", 2, 2), ("0 (trivial)", 2, 3), ("0 (trivial)", 2, 4)],
        [("0 (trivial)", 3, 1), ("Z", 3, 2), ("Z", 3, 3), ("0 (trivial)", 3, 4)],
        [("0 (trivial)", 4, 1), ("Z/2", 4, 2), ("Z/2", 4, 3), ("Z", 4, 4)],
    ];
    for row in expected.iter() {
        for &(desc, k, n) in row.iter() {
            let g = pik_sn(k, n);
            assert_eq!(g.description, desc, "pi_{}(S^{})", k, n);
            assert_eq!(g.dimension, k);
            if k >= 2 {
                assert!(g.is_abelian);
            }
        }
    }
}

#[test]
fn torus_fundamental_group_is_abelian() {
    let g = pi1_space("T^2");
    assert!(g.is_abelian);
    assert_eq!(g.description, "Z × Z (free abelian on 2 generators)");
}

#[test]
fn abelian_fundamental_groups() {
    assert!(pi1_s1().is_abelian);
    assert!(pi1_space("RP^2").is_abelian);
    assert!(pi1_space("S^1").is_abelian);
    assert!(!pi1_space("Klein bottle").is_abelian);
}
