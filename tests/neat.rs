use neuro::neat::genome::{Genome, GenomeError};
use neuro::neat::innovation::InnovationRegistry;
use neuro::neat::node_gene::NodeType;

fn check_invariants(g: &Genome<f32>) {
    let mut keys = Vec::new();
    for (id, c) in g.connection_genes.iter() {
        assert_eq!(*id, c.innovation_id);
        let a = g.node_genes.get(&c.in_node).unwrap();
        let b = g.node_genes.get(&c.out_node).unwrap();
        assert_ne!(a.node_type, NodeType::OUTPUT);
        assert_ne!(b.node_type, NodeType::INPUT);
        assert!(!keys.contains(&(c.in_node, c.out_node)));
        keys.push((c.in_node, c.out_node));
    }
}

#[test]
fn create_genome() {
    let mut reg = InnovationRegistry::new();
    for (nodes, conns) in [(5usize, 4usize), (3, 3)] {
        let first_node = reg.current_node();
        let first_conn = reg.current_connection();
        match Genome::new(&mut reg, &vec![0.25f32; nodes], &vec![0.5f32; conns]) {
            Ok(genome) => {
                assert_eq!(genome.node_genes.len(), nodes);
                assert_eq!(genome.connection_genes.len(), conns);
                assert_eq!(reg.current_node(), first_node + nodes as i8);
                assert_eq!(reg.current_connection(), first_conn + conns as i8);
                check_invariants(&genome);
            }
            Err(e) => assert_eq!(e, GenomeError::GraphSaturated),
        }
    }
}

#[test]
fn next_node_counts_from_one() {
    let mut reg = InnovationRegistry::new();
    assert_eq!(reg.current_node(), 0);
    let ids: Vec<i8> = (0..10).map(|_| reg.next_node()).collect();
    assert_eq!(ids, (1..=10).collect::<Vec<i8>>());
    assert_eq!(reg.current_node(), 10);
    assert_eq!(reg.current_connection(), 0);
}

#[test]
fn next_connection_increases() {
    let mut reg = InnovationRegistry::new();
    let a = reg.next_connection();
    let b = reg.next_connection();
    let c = reg.next_node();
    let d = reg.next_connection();
    assert!(a < b && b < d);
    assert_eq!((a, b, c, d), (1, 2, 1, 3));
}

#[test]
fn explicit_connections_follow_the_rules() {
    let mut reg = InnovationRegistry::new();
    let mut g: Genome<f32> = Genome::empty();
    g.add_node_gene_of_type(&mut reg, NodeType::INPUT, 0.1);
    g.add_node_gene_of_type(&mut reg, NodeType::HIDDEN, 0.2);
    g.add_node_gene_of_type(&mut reg, NodeType::OUTPUT, 0.3);
    assert_eq!(g.node_genes.get(&2).unwrap().activation, 0.2);
    assert_eq!(g.add_connection_gene_between(&mut reg, 1, 2, 0.5, true), Ok(()));
    assert_eq!(g.add_connection_gene_between(&mut reg, 1, 2, 0.5, true), Err(GenomeError::InvalidConnection));
    assert_eq!(g.add_connection_gene_between(&mut reg, 3, 2, 0.5, true), Err(GenomeError::InvalidConnection));
    assert_eq!(g.add_connection_gene_between(&mut reg, 2, 1, 0.5, true), Err(GenomeError::InvalidConnection));
    assert_eq!(g.add_connection_gene_between(&mut reg, 1, 9, 0.5, true), Err(GenomeError::InvalidConnection));
    assert_eq!(g.add_connection_gene_between(&mut reg, 2, 3, 0.7, false), Ok(()));
    assert_eq!(reg.current_connection(), 2);
    let c = g.connection_genes.get(&2).unwrap();
    assert_eq!((c.in_node, c.out_node, c.weight, c.enabled, c.innovation_id), (2, 3, 0.7, false, 2));
    assert!(g.is_candidate(&reg, 1, 3));
    assert!(!g.is_candidate(&reg, 3, 1));
    check_invariants(&g);
}

#[test]
fn saturated_genome_reports_it() {
    let mut reg = InnovationRegistry::new();
    let mut g: Genome<f32> = Genome::empty();
    g.add_node_gene_of_type(&mut reg, NodeType::INPUT, 0.0);
    g.add_node_gene_of_type(&mut reg, NodeType::OUTPUT, 0.0);
    assert_eq!(g.add_connection_gene(&mut reg, 1.0), Ok(()));
    let c = g.connection_genes.get(&1).unwrap();
    assert_eq!((c.in_node, c.out_node, c.weight), (1, 2, 1.0));
    assert_eq!(g.add_connection_gene(&mut reg, 1.0), Err(GenomeError::GraphSaturated));
    assert_eq!(reg.current_connection(), 1);
}

#[test]
fn random_node_roles_cover_all_three() {
    let mut reg = InnovationRegistry::new();
    let mut g: Genome<f32> = Genome::empty();
    for _ in 0..60 {
        g.add_node_gene(&mut reg, 0.5);
    }
    let roles: Vec<NodeType> = g.node_genes.values().map(|n| n.node_type).collect();
    assert!(roles.contains(&NodeType::INPUT));
    assert!(roles.contains(&NodeType::OUTPUT));
    assert!(roles.contains(&NodeType::HIDDEN));
    assert_eq!(NodeType::from_index(0), NodeType::INPUT);
    assert_eq!(NodeType::from_index(1), NodeType::OUTPUT);
    assert_eq!(NodeType::from_index(2), NodeType::HIDDEN);
}
