use neatcore::activation::Activation;
use neatcore::genome::Genome;
use neatcore::population::Population;

#[test]
fn flatten_unflatten() {
    let mut g = Genome::new(10, 10, Activation::Identity);
    g.connect_ends();
    let input: Vec<i64> = vec![1; 10];
    let o1 = g.evaluate(&input);
    let temp = g.flatten();
    let g2 = Genome::un_flatten(&temp, 10, 10, Activation::Identity);
    let o2 = g2.evaluate(&input);
    assert_eq!(o1, o2);
}

#[test]
fn random_flatten() {
    let mut g = Genome::new(10, 10, Activation::Identity);
    for _ in 0..5 {
        let _ = g.random_split();
    }
    for _ in 0..5 {
        let _ = g.random_edge();
    }
    let input: Vec<i64> = vec![1; 10];
    let o1 = g.evaluate(&input);
    let temp = g.flatten();
    let g2 = Genome::un_flatten(&temp, 10, 10, Activation::Identity);
    let o2 = g2.evaluate(&input);
    assert_eq!(o1, o2);
}

#[test]
fn population_test() {
    let mut p = Population::new(5, 10, 10, Activation::Identity, false);
    for child in 0..5 {
        for i in 0..10 {
            for j in 0..10 {
                p.population[child].add_edge(i, j + 10 + 1, i * 10 + j, 1, true);
            }
        }
    }
    let input: Vec<i64> = vec![1; 10];
    let o: Vec<i64> = vec![10; 10];
    for i in 0..5 {
        let o1 = p.population[i].evaluate(&input);
        assert_eq!(o, o1);
    }
}

#[test]
fn population_mutate() {
    let mut p1 = Population::new(1, 1, 1, Activation::Identity, true);
    let outs: Vec<u64> = vec![1];
    p1.next_generation(&outs);
    assert!(p1.population[0].num_connections <= 2 || p1.population[0].num_nodes <= 3);
}

#[test]
fn innovation_determinism() {
    let mut p = Population::new(2, 2, 1, Activation::Identity, true);
    let n1 = p.get_inno_split(0, 3);
    let e1a = p.get_inno_edge(0, n1);
    let e1b = p.get_inno_edge(n1, 3);
    // a second genome rediscovering the same historical split
    let n2 = p.get_inno_split(0, 3);
    let e2a = p.get_inno_edge(0, n2);
    let e2b = p.get_inno_edge(n2, 3);
    assert_eq!(n1, n2);
    assert_eq!(e1a, e2a);
    assert_eq!(e1b, e2b);
    assert_eq!(e1b, e1a + 1);
}

#[test]
fn offspring_totals() {
    let mut p = Population::new(7, 2, 1, Activation::Identity, true);
    let zero: Vec<u64> = vec![0; 7];
    p.next_generation(&zero);
    assert_eq!(p.population.len(), 7);
    let equal: Vec<u64> = vec![5; 7];
    p.next_generation(&equal);
    assert_eq!(p.population.len(), 7);
    let mixed: Vec<u64> = vec![0, 1, 2, 3, 4, 5, 6];
    p.next_generation(&mixed);
    assert_eq!(p.population.len(), 7);
    assert_eq!(p.gen, 3);
}

#[test]
fn delta_of_identical_genomes_is_zero() {
    let mut u = Genome::new(2, 1, Activation::Identity);
    u.connect_ends();
    let p = Population::new(1, 2, 1, Activation::Identity, true);
    let d = p.delta(&u, &u);
    assert_eq!(d, Some(0));
}

#[test]
fn delta_counts_excess() {
    let p = Population::new(1, 1, 1, Activation::Identity, false);
    let mut u = Genome::new(1, 1, Activation::Identity);
    u.add_edge(0, 2, 0, 4, true);
    let mut v = Genome::new(1, 1, Activation::Identity);
    v.add_edge(0, 2, 0, 1, true);
    v.add_edge(1, 2, 1, 1, true);
    // one matching gene with weight gap three, one excess gene, small
    // genomes: n is one; thousandths of 4*1*1/5 + 2*3/5
    let d = p.delta(&u, &v).unwrap();
    assert_eq!(d, (1000 * (4 * 1 * 1 + 2 * 3 * 1)) / (5 * 1 * 1));
}

#[test]
fn speciate_covers_every_genome() {
    let mut p = Population::new(6, 2, 1, Activation::Identity, true);
    let sp = p.speciate(&p.population);
    let mut seen = vec![false; 6];
    let mut members = 0;
    for s in &sp {
        assert!(s.organisms.len() > 0);
        assert!(s.organisms.contains(&s.leader));
        for m in &s.organisms {
            assert!(*m < 6);
            seen[*m] = true;
            members += 1;
        }
    }
    assert_eq!(members, 6);
    assert!(seen.iter().all(|x| *x));
    p.previous_gen = sp;
}

#[test]
fn breed_keeps_layout() {
    let mut p = Population::new(2, 2, 2, Activation::Identity, true);
    let fit: Vec<u64> = vec![3, 1];
    p.next_generation(&fit);
    let child = p.breed(&p.population[0], &p.population[1]);
    assert_eq!(child.input_nodes, 2);
    assert_eq!(child.output_nodes, 2);
    let out = child.evaluate(&vec![1, 1]);
    assert_eq!(out.len(), 2);
}

#[test]
fn evaluate_all_matches_each_genome() {
    let mut p = Population::new(3, 2, 2, Activation::Identity, true);
    let fit: Vec<u64> = vec![1, 2, 3];
    p.next_generation(&fit);
    let input: Vec<i64> = vec![1, -1];
    let outs = p.evaluate_all(&input);
    assert_eq!(outs.len(), 3);
    for k in 0..3 {
        assert_eq!(outs[k], p.population[k].evaluate(&input));
    }
}
