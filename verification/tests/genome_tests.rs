use neatcore::activation::Activation;
use neatcore::genome::Genome;
use neatcore::population::Species;

#[test]
fn fully_connected() {
    let mut g = Genome::new(4, 4, Activation::Identity);
    for i in 0..4 {
        for j in 0..4 {
            g.add_edge(i, 5 + j, i * 4 + j, 1, true);
        }
    }
    let input: Vec<i64> = vec![1; 4];
    let output = g.evaluate(&input);
    let expected: Vec<i64> = vec![4, 4, 4, 4];
    assert_eq!(output, expected);
}

#[test]
fn split_node_working() {
    let mut g = Genome::new(1, 1, Activation::Identity);
    g.add_edge(0, 2, 1, 10, true);
    g.split_edge(0, 2, 3, 10);
    let input: Vec<i64> = vec![1; 1];
    let output = g.evaluate(&input);
    let expected: Vec<i64> = vec![10];
    assert_eq!(output, expected);
}

#[test]
fn add_edge() {
    let mut g = Genome::new(1, 1, Activation::Identity);
    g.add_edge(0, 2, 1, 15, true);
    let input: Vec<i64> = vec![1; 1];
    let output = g.evaluate(&input);
    let expected: Vec<i64> = vec![15];
    assert_eq!(output, expected);
}

#[test]
fn disable_edge() {
    let mut g = Genome::new(1, 1, Activation::Identity);
    g.add_edge(0, 2, 1, 15, true);
    g.disable_edge(0, 2);
    let input: Vec<i64> = vec![1; 1];
    let output = g.evaluate(&input);
    let expected: Vec<i64> = vec![0];
    assert_eq!(output, expected);
    let expected: Vec<i64> = vec![15];
    g.enable_edge(0, 2);
    let output = g.evaluate(&input);
    assert_eq!(output, expected);
}

#[test]
fn extra_random() {
    let mut g = Genome::new(5, 5, Activation::Identity);
    g.connect_ends();
    let _ = g.random_edge();
    assert_eq!(g.num_connections, 30);
}

#[test]
fn add_random_disabled() {
    let mut g = Genome::new(1, 1, Activation::Identity);
    g.connect_ends();
    g.disable_edge(0, 1);
    if let Some(e) = g.random_edge() {
        g.enable_edge(e.0, e.1);
    }
    assert_eq!(g.nodes[0].adj.len(), 1);
}

#[test]
fn unflatte_size() {
    let mut g = Genome::new(10, 10, Activation::Identity);
    g.connect_ends();
    let temp = g.flatten();
    assert_eq!(temp.len(), 10 * 10 + 10);
}

#[test]
fn cycle_free_after_mutations() {
    let mut g = Genome::new(3, 2, Activation::Identity);
    g.connect_ends();
    for _ in 0..5 {
        if let Some((u, v)) = g.random_edge() {
            let inno = g.num_connections;
            g.add_edge(u, v, 100 + inno, 1, true);
        }
        assert!(!g.check_cycle());
    }
}

#[test]
fn split_keeps_output_and_acyclicity() {
    let mut g = Genome::new(2, 1, Activation::Identity);
    g.add_edge(0, 3, 1, 7, true);
    g.add_edge(1, 3, 2, -2, true);
    let input: Vec<i64> = vec![1, 1];
    let before = g.evaluate(&input);
    g.split_edge(0, 3, 10, 50);
    assert!(!g.check_cycle());
    let after = g.evaluate(&input);
    assert_eq!(before, after);
    assert_eq!(after, vec![5]);
}

#[test]
fn relu_clamps_negative_sums() {
    let mut g = Genome::new(1, 1, Activation::Relu);
    g.add_edge(0, 2, 1, -3, true);
    let out = g.evaluate(&vec![2]);
    assert_eq!(out, vec![0]);
}

#[test]
fn weights_stay_in_range() {
    let mut g = Genome::new(2, 2, Activation::Identity);
    g.connect_ends();
    g.new_weights();
    g.permute_weights();
    for gene in g.flatten() {
        assert!(-8 <= gene.weight && gene.weight <= 8);
    }
}

#[test]
fn random_disable_removes_one() {
    let mut g = Genome::new(2, 2, Activation::Identity);
    g.connect_ends();
    let before = g.num_connections;
    let did = g.random_disable();
    assert!(did);
    assert_eq!(g.num_connections, before - 1);
}

#[test]
fn species_starts_empty() {
    let s = Species::new();
    assert_eq!(s.organisms.len(), 0);
    assert_eq!(s.leader, 0);
}

#[test]
fn unflatten_round_trip_genes() {
    let mut g = Genome::new(3, 2, Activation::Identity);
    g.connect_ends();
    let genes = g.flatten();
    let g2 = Genome::un_flatten(&genes, 3, 2, Activation::Identity);
    let genes2 = g2.flatten();
    assert_eq!(genes.len(), genes2.len());
    for k in 0..genes.len() {
        assert_eq!(genes[k], genes2[k]);
    }
}
