use lau_algebraic_topology::matrix::ZMatrix;
use lau_algebraic_topology::simplicial;
use lau_algebraic_topology::singular::{
    singular_homology_of_space, ChainMap, SingularChain, SingularChainComplex, SingularSimplex,
};

#[test]
fn test_singular_simplex_face() {
    let sigma = SingularSimplex::new(2, "σ", vec![0, 1, 2]);
    let f0 = sigma.face(0);
    assert_eq!(f0.vertices, vec![1, 2]);
    let f1 = sigma.face(1);
    assert_eq!(f1.vertices, vec![0, 2]);
}

#[test]
fn test_singular_chain_add() {
    let a = SingularChain { dimension: 1, coefficients: vec![1, 2, 3] };
    let b = SingularChain { dimension: 1, coefficients: vec![4, 5, 6] };
    let c = a.add(&b);
    assert_eq!(c.coefficients, vec![5, 7, 9]);
}

#[test]
fn test_singular_homology_circle() {
    let s1 = simplicial::circle();
    let cc = s1.chain_complex();
    let h0 = singular_homology_of_space(&cc, 0).unwrap();
    assert_eq!(h0.free_rank, 1);
    let h1 = singular_homology_of_space(&cc, 1).unwrap();
    assert_eq!(h1.free_rank, 1);
}

#[test]
fn test_singular_chain_complex() {
    let s2 = simplicial::sphere_2();
    let cc = s2.chain_complex();
    let scc = SingularChainComplex::from_chain_complex(
        cc,
        vec![vec!["v0".into(), "v1".into(), "v2".into(), "v3".into()], vec![], vec![]],
    );
    let h0 = scc.homology(0).unwrap();
    assert_eq!(h0.free_rank, 1);
}

#[test]
fn face_label_and_dimension() {
    let sigma = SingularSimplex::new(2, "σ", vec![0, 1, 2]);
    let f = sigma.face(2);
    assert_eq!(f.label, "∂_2(σ)");
    assert_eq!(f.dimension, 1);
    let g = f.face(0);
    assert_eq!(g.label, "∂_0(∂_2(σ))");
    assert_eq!(g.vertices, vec![1]);
    let p = SingularSimplex::new(0, "p", vec![7]);
    assert_eq!(p.face(0).dimension, 0);
}

#[test]
fn chain_zero_scale_and_uneven_add() {
    let z = SingularChain::zero(2, 3);
    assert_eq!(z.coefficients, vec![0, 0, 0]);
    assert_eq!(z.dimension, 2);
    let a = SingularChain { dimension: 1, coefficients: vec![1, -2, 3] };
    assert_eq!(a.scale(-3).coefficients, vec![-3, 6, -9]);
    let short = SingularChain { dimension: 1, coefficients: vec![10] };
    assert_eq!(a.add(&short).coefficients, vec![11]);
    assert_eq!(a.add(&short).dimension, 1);
}

#[test]
fn chain_map_first_matrix() {
    let empty = ChainMap::new(vec![]);
    assert!(empty.induced_homology_matrix(0).is_none());
    let m = ChainMap::new(vec![ZMatrix::from_row_slice(1, 2, &[3, 4]), ZMatrix::identity(2)]);
    let first = m.induced_homology_matrix(5).unwrap();
    assert_eq!(first.nrows(), 1);
    assert_eq!(first.get(0, 1), 4);
}

#[test]
fn singular_complex_all_homology() {
    let cc = simplicial::circle().chain_complex();
    let scc = SingularChainComplex::from_chain_complex(cc, vec![]);
    let all = scc.all_homology(1).unwrap();
    assert_eq!(all.len(), 2);
    assert_eq!(all[1].free_rank, 1);
    assert!(scc.labels.is_empty());
}
