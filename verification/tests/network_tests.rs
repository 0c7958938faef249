use lau_algebraic_topology::network::AgentNetwork;

#[test]
fn test_empty_network() {
    let net = AgentNetwork::new();
    assert_eq!(net.agents.len(), 0);
}

#[test]
fn test_connected_network() {
    let mut net = AgentNetwork::new();
    net.add_agent("A");
    net.add_agent("B");
    net.add_agent("C");
    net.connect("A", "B");
    net.connect("B", "C");
    assert!(net.is_connected_when_complete());
}

#[test]
fn test_disconnected_network() {
    let mut net = AgentNetwork::new();
    net.add_agent("A");
    net.add_agent("B");
    net.add_agent("C");
    net.connect("A", "B");
    // C is disconnected
    assert_eq!(net.num_components(), 2);
}

#[test]
fn test_triangle_network() {
    let mut net = AgentNetwork::new();
    net.add_agent("A");
    net.add_agent("B");
    net.add_agent("C");
    net.connect("A", "B");
    net.connect("B", "C");
    net.connect("A", "C");
    let analysis = net.analyze().unwrap();
    assert!(analysis.is_connected);
    // Triangle fills the hole, so β_1 = 0
    assert_eq!(analysis.holes_1d, 0);
}

#[test]
fn test_square_network_hole() {
    let mut net = AgentNetwork::new();
    net.add_agent("A");
    net.add_agent("B");
    net.add_agent("C");
    net.add_agent("D");
    net.connect("A", "B");
    net.connect("B", "C");
    net.connect("C", "D");
    net.connect("D", "A");
    // Square has a 1D hole (no diagonal)
    let analysis = net.analyze().unwrap();
    assert!(analysis.is_connected);
    assert_eq!(analysis.holes_1d, 1);
}

#[test]
fn test_two_triangles() {
    let mut net = AgentNetwork::new();
    for c in "ABCDEF".chars() {
        net.add_agent(&c.to_string());
    }
    // Two triangles sharing no vertices
    net.connect("A", "B");
    net.connect("B", "C");
    net.connect("A", "C");
    net.connect("D", "E");
    net.connect("E", "F");
    net.connect("D", "F");
    let analysis = net.analyze().unwrap();
    assert_eq!(analysis.num_components, 2);
}

#[test]
fn test_tetrahedron_network() {
    let mut net = AgentNetwork::new();
    net.add_agent("A");
    net.add_agent("B");
    net.add_agent("C");
    net.add_agent("D");
    // Complete graph K4
    net.connect("A", "B");
    net.connect("A", "C");
    net.connect("A", "D");
    net.connect("B", "C");
    net.connect("B", "D");
    net.connect("C", "D");
    let analysis = net.analyze().unwrap();
    assert!(analysis.is_connected);
    // K4 is a tetrahedron = S^2 boundary filled, so β_1 = 0
    assert_eq!(analysis.holes_1d, 0);
}

#[test]
fn test_network_analysis_display() {
    let mut net = AgentNetwork::new();
    net.add_agent("A");
    net.add_agent("B");
    net.connect("A", "B");
    let analysis = net.analyze().unwrap();
    let display = analysis.to_display_string();
    assert!(display.contains("Agents: 2"));
}

#[test]
fn components_in_order_of_first_agent() {
    let mut net = AgentNetwork::new();
    for c in "ABCDE".chars() {
        net.add_agent(&c.to_string());
    }
    net.connect("D", "B");
    net.connect("E", "C");
    net.connect("C", "X"); // no agent X: ignored
    let comps = net.connected_components();
    assert_eq!(
        comps,
        vec![vec!["A".to_string()], vec!["B".to_string(), "D".to_string()], vec!["C".to_string(), "E".to_string()]]
    );
    assert_eq!(net.num_components(), 3);
    assert!(!net.is_connected_when_complete());
}

#[test]
fn empty_network_analysis() {
    let net = AgentNetwork::new();
    assert!(net.connected_components().is_empty());
    assert_eq!(net.network_homology(3).unwrap().len(), 0);
    let a = net.analyze().unwrap();
    assert_eq!(a.num_agents, 0);
    assert_eq!(a.num_components, 0);
    assert!(!a.is_connected);
    assert!(a.betti_numbers.is_empty());
    assert_eq!(a.euler_characteristic, 0);
    assert_eq!(a.holes_1d, 0);
}

#[test]
fn tetrahedron_fills_to_solid() {
    let mut net = AgentNetwork::new();
    for c in "ABCD".chars() {
        net.add_agent(&c.to_string());
    }
    for (x, y) in [("A", "B"), ("A", "C"), ("A", "D"), ("B", "C"), ("B", "D"), ("C", "D")] {
        net.connect(x, y);
    }
    let a = net.analyze().unwrap();
    assert_eq!(a.betti_numbers, vec![1, 0, 0, 0]);
    assert_eq!(a.euler_characteristic, 1);
    assert_eq!(a.voids_2d, 0);
    assert_eq!(a.num_connections, 6);
    assert_eq!(a.homology_groups.len(), 4);
}

#[test]
fn square_display_text() {
    let mut net = AgentNetwork::new();
    for c in "ABCD".chars() {
        net.add_agent(&c.to_string());
    }
    net.connect("A", "B");
    net.connect("B", "C");
    net.connect("C", "D");
    net.connect("D", "A");
    let a = net.analyze().unwrap();
    assert_eq!(
        a.to_display_string(),
        "Network Analysis:\n  Agents: 4\n  Connections: 4\n  Connected: yes\n  Components: 1\n  Betti numbers: [1, 1, 0, 0]\n  Euler characteristic: 0\n  1D holes: 1\n  2D voids: 0\n  3D voids: 0\n"
    );
}

#[test]
fn network_homology_low_dimension() {
    let mut net = AgentNetwork::new();
    net.add_agent("A");
    net.add_agent("B");
    net.connect("B", "A");
    let h = net.network_homology(0).unwrap();
    assert_eq!(h.len(), 1);
    assert_eq!(h[0].free_rank, 1);
    let h1 = net.network_homology(1).unwrap();
    assert_eq!(h1.len(), 2);
    assert!(h1[1].is_trivial());
}

#[test]
fn duplicate_names_resolve_to_last_agent() {
    let mut net = AgentNetwork::new();
    net.add_agent("A");
    net.add_agent("B");
    net.add_agent("A");
    net.connect("A", "B");
    let comps = net.connected_components();
    assert_eq!(comps, vec![vec!["A".to_string()], vec!["B".to_string(), "A".to_string()]]);
}

#[test]
fn add_agent_and_connect_record_names() {
    let mut net = AgentNetwork::new();
    net.add_agent("x");
    net.connect("x", "y");
    assert_eq!(net.agents[0].id, "x");
    assert!(net.agents[0].metadata.is_empty());
    assert_eq!(net.connections[0].from, "x");
    assert_eq!(net.connections[0].to, "y");
    assert!(net.bidirectional);
}

#[test]
fn diagonal_fills_the_square_hole() {
    let mut net = AgentNetwork::new();
    for name in ["Alice", "Bob", "Carol", "Dave"] {
        net.add_agent(name);
    }
    net.connect("Alice", "Bob");
    net.connect("Bob", "Carol");
    net.connect("Carol", "Dave");
    net.connect("Dave", "Alice");
    assert_eq!(net.analyze().unwrap().betti_numbers, vec![1, 1, 0, 0]);
    net.connect("Alice", "Carol");
    let a = net.analyze().unwrap();
    assert_eq!(a.holes_1d, 0);
    assert_eq!(a.betti_numbers, vec![1, 0, 0, 0]);
    assert_eq!(a.euler_characteristic, 1);
}

#[test]
fn unconnected_agents_are_separate_points() {
    let mut net = AgentNetwork::new();
    net.add_agent("A");
    net.add_agent("B");
    net.add_agent("C");
    let a = net.analyze().unwrap();
    assert_eq!(a.num_components, 3);
    assert_eq!(a.betti_numbers, vec![3, 0, 0, 0]);
    assert_eq!(a.euler_characteristic, 3);
    assert!(!a.is_connected);
}

#[test]
fn first_betti_number_counts_components() {
    let mut net = AgentNetwork::new();
    for name in ["A", "B", "C", "D", "E", "F"] {
        net.add_agent(name);
    }
    net.connect("A", "B");
    net.connect("B", "C");
    net.connect("D", "E");
    let a = net.analyze().unwrap();
    assert_eq!(a.num_components, 3);
    assert_eq!(a.homology_groups[0].free_rank, 3);
    assert_eq!(a.betti_numbers[0], 3);
    let hs = net.network_homology(2).unwrap();
    assert_eq!(hs[0].free_rank, 3);
}
