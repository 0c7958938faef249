use lau_algebraic_topology::euler::euler_from_betti;
use lau_algebraic_topology::simplicial::{
    circle, disk, interval, klein_bottle, mobius_strip, point, rp2, sphere_2, sphere_n, torus, SimplicialComplex,
};

#[test]
fn test_point_homology() {
    let p = point();
    let h0 = p.homology(0).unwrap();
    assert_eq!(h0.free_rank, 1);
    assert!(h0.torsion.is_empty());
    let h1 = p.homology(1).unwrap();
    assert!(h1.is_trivial());
}

#[test]
fn test_circle_homology() {
    let s1 = circle();
    let h0 = s1.homology(0).unwrap();
    assert_eq!(h0.free_rank, 1);
    let h1 = s1.homology(1).unwrap();
    assert_eq!(h1.free_rank, 1);
    let h2 = s1.homology(2).unwrap();
    assert!(h2.is_trivial());
}

#[test]
fn test_s2_homology() {
    let s2 = sphere_2();
    let h0 = s2.homology(0).unwrap();
    assert_eq!(h0.free_rank, 1);
    let h1 = s2.homology(1).unwrap();
    assert!(h1.is_trivial());
    let h2 = s2.homology(2).unwrap();
    assert_eq!(h2.free_rank, 1);
}

#[test]
fn test_sphere_n_homology() {
    // S^3
    let s3 = sphere_n(3);
    let h0 = s3.homology(0).unwrap();
    assert_eq!(h0.free_rank, 1);
    let h1 = s3.homology(1).unwrap();
    assert!(h1.is_trivial());
    let h2 = s3.homology(2).unwrap();
    assert!(h2.is_trivial());
    let h3 = s3.homology(3).unwrap();
    assert_eq!(h3.free_rank, 1);
}

#[test]
fn test_disk_contractible() {
    let d = disk();
    let h0 = d.homology(0).unwrap();
    assert_eq!(h0.free_rank, 1);
    let h1 = d.homology(1).unwrap();
    assert!(h1.is_trivial());
}

#[test]
fn test_circle_euler() {
    let s1 = circle();
    // 3 vertices, 3 edges: χ = 3 - 3 = 0
    assert_eq!(s1.euler_characteristic(), 0);
}

#[test]
fn test_s2_euler() {
    let s2 = sphere_2();
    // 4 vertices, 6 edges, 4 triangles: χ = 4 - 6 + 4 = 2
    assert_eq!(s2.euler_characteristic(), 2);
}

#[test]
fn test_interval_contractible() {
    let i = interval();
    let h0 = i.homology(0).unwrap();
    assert_eq!(h0.free_rank, 1);
    let h1 = i.homology(1).unwrap();
    assert!(h1.is_trivial());
}

#[test]
fn test_mobius_strip_homology() {
    let m = mobius_strip();
    let h0 = m.homology(0).unwrap();
    assert_eq!(h0.free_rank, 1);
    let h1 = m.homology(1).unwrap();
    assert_eq!(h1.free_rank, 1); // Z for Möbius strip H_1
}

#[test]
fn readme_quick_start_counts() {
    let mut k = SimplicialComplex::new("my complex");
    k.add_simplex(&[0, 1, 2]);
    k.add_simplex(&[1, 2, 3]);
    assert_eq!(k.num_vertices(), 4);
    assert_eq!(k.num_edges(), 5);
    assert_eq!(k.num_simplices(2), 2);
    assert_eq!(k.dimension(), 2);
    assert_eq!(k.name, "my complex");
}

#[test]
fn add_simplex_sorts_dedups_and_adds_faces() {
    let mut k = SimplicialComplex::new("K");
    k.add_simplex(&[2, 0, 2, 1]);
    assert_eq!(k.simplices_of_dim(2), vec![vec![0, 1, 2]]);
    assert_eq!(k.simplices_of_dim(1), vec![vec![0, 1], vec![0, 2], vec![1, 2]]);
    assert_eq!(k.simplices_of_dim(0), vec![vec![0], vec![1], vec![2]]);
    assert_eq!(k.num_simplices(3), 0);
    assert!(k.simplices_of_dim(5).is_empty());
    // adding a face again changes nothing
    k.add_simplex(&[1, 0]);
    assert_eq!(k.num_simplices(1), 3);
    assert_eq!(k.num_vertices(), 3);
}

#[test]
fn simplices_come_in_lexicographic_order() {
    let mut k = SimplicialComplex::new("K");
    k.add_simplex(&[5, 9]);
    k.add_simplex(&[1, 10]);
    k.add_simplex(&[1, 2]);
    assert_eq!(k.simplices_of_dim(1), vec![vec![1, 2], vec![1, 10], vec![5, 9]]);
    assert_eq!(k.simplices_of_dim(0), vec![vec![1], vec![2], vec![5], vec![9], vec![10]]);
}

#[test]
fn empty_simplex_lands_in_dimension_zero() {
    let mut k = SimplicialComplex::new("E");
    k.add_simplex(&[]);
    assert_eq!(k.num_simplices(0), 1);
    assert_eq!(k.num_vertices(), 0);
    assert_eq!(k.dimension(), 0);
    assert_eq!(k.simplices_of_dim(0), vec![Vec::<usize>::new()]);
}

#[test]
fn empty_complex() {
    let k = SimplicialComplex::new("nothing");
    assert_eq!(k.dimension(), 0);
    assert_eq!(k.num_simplices(0), 0);
    assert_eq!(k.num_vertices(), 0);
    assert_eq!(k.euler_characteristic(), 0);
    assert!(k.homology(0).unwrap().is_trivial());
}

#[test]
fn boundary_matrix_of_triangle() {
    let d = disk();
    let cc = d.chain_complex();
    assert_eq!(cc.ranks, vec![3, 3, 1]);
    let d1 = &cc.boundary_maps[0];
    // rows [0], [1], [2]; columns [0,1], [0,2], [1,2]
    assert_eq!(d1.get(0, 0), -1);
    assert_eq!(d1.get(1, 0), 1);
    assert_eq!(d1.get(2, 0), 0);
    assert_eq!(d1.get(0, 1), -1);
    assert_eq!(d1.get(2, 1), 1);
    assert_eq!(d1.get(1, 2), -1);
    assert_eq!(d1.get(2, 2), 1);
    let d2 = &cc.boundary_maps[1];
    // rows [0,1], [0,2], [1,2]; the triangle [0,1,2]
    assert_eq!(d2.get(0, 0), 1);
    assert_eq!(d2.get(1, 0), -1);
    assert_eq!(d2.get(2, 0), 1);
    assert!(cc.is_valid());
}

#[test]
fn standard_triangulation_counts() {
    let t = torus();
    assert_eq!(t.num_vertices(), 7);
    assert_eq!(t.num_simplices(2), 14);
    assert_eq!(t.name, "T^2");
    let p = rp2();
    assert_eq!(p.num_vertices(), 6);
    assert_eq!(p.num_simplices(2), 10);
    let kb = klein_bottle();
    assert_eq!(kb.num_vertices(), 9);
    assert_eq!(kb.num_simplices(2), 18);
    let s = sphere_n(2);
    assert_eq!(s.num_simplices(2), 4);
    assert_eq!(s.num_edges(), 6);
    assert_eq!(s.name, "S^2");
}

#[test]
fn sphere_n_euler_and_betti() {
    let s4 = sphere_n(4);
    assert_eq!(s4.euler_characteristic(), 2);
    assert_eq!(s4.betti_numbers().unwrap(), vec![1, 0, 0, 0, 1]);
    let s1 = sphere_n(1);
    assert_eq!(s1.betti_numbers().unwrap(), vec![1, 1]);
    let all = sphere_2().all_homology().unwrap();
    assert_eq!(all.len(), 3);
    assert_eq!(all[2].free_rank, 1);
}

#[test]
fn homology_display_strings() {
    let h = sphere_2().homology(1).unwrap();
    assert_eq!(h.to_display_string(), "H_1 = 0");
    let h2 = sphere_2().homology(2).unwrap();
    assert_eq!(h2.to_display_string(), "H_2 = Z^1");
}

#[test]
fn boundary_of_boundary_vanishes_on_standard_complexes() {
    assert!(sphere_n(3).chain_complex().is_valid());
    assert!(torus().chain_complex().is_valid());
    assert!(klein_bottle().chain_complex().is_valid());
    assert!(rp2().chain_complex().is_valid());
}

#[test]
fn adding_order_and_repetition_do_not_matter() {
    let mut a = SimplicialComplex::new("a");
    a.add_simplex(&[0, 1, 2]);
    a.add_simplex(&[2, 3]);
    let mut b = SimplicialComplex::new("b");
    b.add_simplex(&[3, 2]);
    b.add_simplex(&[1, 2, 0]);
    b.add_simplex(&[0, 2, 1]);
    for d in 0..3 {
        assert_eq!(a.simplices_of_dim(d), b.simplices_of_dim(d));
    }
    assert_eq!(a.dimension(), b.dimension());
}

#[test]
fn every_face_of_a_simplex_is_present() {
    let t = torus();
    let edges = t.simplices_of_dim(1);
    let vertices = t.simplices_of_dim(0);
    for tri in t.simplices_of_dim(2) {
        for i in 0..3 {
            let mut face = tri.clone();
            face.remove(i);
            assert!(edges.contains(&face));
        }
    }
    for e in &edges {
        for i in 0..2 {
            let mut face = e.clone();
            face.remove(i);
            assert!(vertices.contains(&face));
        }
    }
}

#[test]
fn torus_triangulation_homology() {
    let t = torus();
    assert_eq!(t.num_simplices(0), 7);
    assert_eq!(t.num_simplices(1), 21);
    assert_eq!(t.num_simplices(2), 14);
    assert_eq!(t.euler_characteristic(), 0);
    assert_eq!(t.betti_numbers().unwrap(), vec![1, 2, 1]);
    assert!(t.homology(1).unwrap().torsion.is_empty());
}

#[test]
fn rp2_triangulation_homology() {
    let p = rp2();
    assert_eq!(p.euler_characteristic(), 1);
    let h1 = p.homology(1).unwrap();
    assert_eq!(h1.free_rank, 0);
    assert_eq!(h1.torsion, vec![2]);
    assert!(p.homology(2).unwrap().is_trivial());
    assert_eq!(p.betti_numbers().unwrap(), vec![1, 0, 0]);
}

#[test]
fn klein_bottle_triangulation_homology() {
    let k = klein_bottle();
    assert_eq!(k.euler_characteristic(), 0);
    assert_eq!(k.homology(0).unwrap().free_rank, 1);
    let h1 = k.homology(1).unwrap();
    assert_eq!(h1.free_rank, 1);
    assert_eq!(h1.torsion, vec![2]);
    assert!(k.homology(2).unwrap().is_trivial());
}

#[test]
fn euler_characteristic_matches_betti_numbers() {
    for k in [point(), circle(), sphere_2(), torus(), rp2(), klein_bottle(), mobius_strip(), disk(), interval()] {
        let b = k.betti_numbers().unwrap();
        assert_eq!(euler_from_betti(&b), k.euler_characteristic());
    }
}
