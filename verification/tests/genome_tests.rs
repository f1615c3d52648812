use neat::Genome;
use neat::InnovationCounter;
use neat::NeatSettings;
use neat::FX_ONE;

fn test_settings() -> NeatSettings {
    NeatSettings {
        weight: 1_000_000,
        weight_mutate: 1_000_000,
        weight_max: 10_000_000,
        weight_mutate_rate: 800_000,
        add_connection_rate: 200_000,
        add_node_rate: 100_000,
        activation_mutate: 50_000,
        activation_mutate_rate: 100_000,
        connections_diff: 1_000_000,
        weight_diff: 100_000,
        species_threshold: 1_000_000,
        feedforward: true,
        reset_fitness: false,
    }
}

#[test]
fn test_same_species() {
    let settings = test_settings();

    let mut first = Genome::new(1, 2);
    first.insert_connection(0, 2, 500_000, true);
    let mut second = Genome::new(1, 2);
    second.insert_connection(0, 2, 1_500_000, true);

    assert!(Genome::same_species(&first, &second, &settings));

    second.insert_connection(0, 1, 1_500_000, true);
    second.insert_connection(0, 22, 1_500_000, true);
    second.insert_connection(0, 21, 1_500_000, true);
    first.insert_connection(3, 22, 1_500_000, true);

    assert!(!Genome::same_species(&first, &second, &settings));
}

#[test]
fn empty_genome_is_allowed() {
    let g = Genome::new(0, 0);
    assert_eq!(g.node_count(), 0);
    assert_eq!(g.connection_count(), 0);
}

#[test]
fn minimal_genome_has_reserved_nodes_and_no_connections() {
    let g = Genome::new(3, 2);
    assert_eq!(g.node_count(), 5);
    assert_eq!(g.connection_count(), 0);
    for id in 0..5u16 {
        let (node_id, activation) = g.node_at(id as usize);
        assert_eq!(node_id, id);
        assert_eq!(activation, 4_900_000);
    }
}

#[test]
fn same_species_is_reflexive_on_empty_and_nonempty_genomes() {
    let settings = test_settings();
    let empty = Genome::new(2, 1);
    assert!(Genome::same_species(&empty, &empty, &settings));

    let mut g = Genome::new(2, 1);
    g.insert_connection(0, 2, -750_000, true);
    g.insert_connection(1, 2, 2_250_000, false);
    assert!(Genome::same_species(&g, &g, &settings));
}

#[test]
fn add_connection_with_creates_registers_and_rejects() {
    let settings = test_settings();
    let mut reg = InnovationCounter::new(2);
    let mut g = Genome::new(1, 1);

    // self-loop rejected
    assert!(!g.add_connection_with(&mut reg, &settings, 1, 1, -123));
    assert_eq!(g.connection_count(), 0);

    // input -> output accepted, registered under the next id
    assert!(g.add_connection_with(&mut reg, &settings, 0, 1, -3_000_000));
    assert_eq!(g.connection_count(), 1);
    assert_eq!(g.connection_at(0), ((0, 1), (-3_000_000, true)));
    assert_eq!(reg.get((0, 1)), Some(2));

    // the same edge again only re-enables, keeping the weight
    assert!(g.add_connection_with(&mut reg, &settings, 0, 1, 999));
    assert_eq!(g.connection_at(0), ((0, 1), (-3_000_000, true)));
    assert_eq!(g.connection_count(), 1);

    // with feedforward on, a candidate whose reverse exists is rejected
    let mut h = Genome::new(1, 1);
    h.insert_node(2, 4_900_000);
    h.insert_connection(2, 1, 400_000, true);
    let before = h.connection_count();
    assert!(!h.add_connection_with(&mut reg, &settings, 1, 2, 42));
    assert_eq!(h.connection_count(), before);
}

#[test]
fn add_node_at_splits_a_connection() {
    let settings = test_settings();
    let mut reg = InnovationCounter::new(2);
    let mut g = Genome::new(1, 1);
    assert!(g.add_connection_with(&mut reg, &settings, 0, 1, -3_000_000));

    g.add_node_at(&mut reg, 0);

    // the split connection is disabled, weight kept
    assert_eq!(g.connection_at(0), ((0, 1), (-3_000_000, false)));
    // source -> new node carries weight one, new node -> target the old one
    assert_eq!(g.connection_at(1), ((0, 2), (FX_ONE, true)));
    assert_eq!(g.connection_at(2), ((2, 1), (-3_000_000, true)));
    // the new node exists with the default activation
    assert_eq!(g.node_count(), 3);
    assert_eq!(g.node_at(2), (2, 4_900_000));
    // both fresh connections were registered
    assert_eq!(reg.get((0, 2)), Some(3));
    assert_eq!(reg.get((2, 1)), Some(4));
}

#[test]
fn cross_inherits_exactly_the_better_parents_keys() {
    let mut better = Genome::new(1, 1);
    better.insert_node(7, 4_900_000);
    better.insert_connection(0, 7, 100_000, true);
    better.insert_connection(7, 1, 200_000, true);
    better.insert_connection(0, 1, 300_000, false);

    let mut worse = Genome::new(1, 1);
    worse.insert_connection(0, 1, -900_000, true);

    let child = Genome::cross(&better, &worse);
    assert_eq!(child.inputs, 1);
    assert_eq!(child.outputs, 1);
    assert_eq!(child.connection_count(), better.connection_count());
    for i in 0..child.connection_count() {
        assert_eq!(child.connection_at(i).0, better.connection_at(i).0);
    }
    // the gene unique to `better` can only come from `better`
    assert_eq!(child.connection_at(0).1, (100_000, true));
    assert_eq!(child.connection_at(1).1, (200_000, true));
    // the shared gene comes from one of the two parents
    let shared = child.connection_at(2).1;
    assert!(shared == (300_000, false) || shared == (-900_000, true));
}

#[test]
fn random_add_connection_reaches_the_only_legal_edge() {
    let settings = test_settings();
    let mut reg = InnovationCounter::new(2);
    let mut g = Genome::new(1, 1);
    // the only edge the rules allow is input 0 -> output 1
    let mut applied = false;
    for _ in 0..200 {
        applied = g.add_connection(&mut reg, &settings) || applied;
    }
    assert!(applied);
    assert_eq!(g.connection_count(), 1);
    assert_eq!(g.connection_at(0).0, (0, 1));
    let (weight, enabled) = g.connection_at(0).1;
    assert!(enabled);
    assert!(-1_000_000 <= weight && weight < 1_000_000);
    assert_eq!(reg.get((0, 1)), Some(2));
}

#[test]
fn mutate_keeps_structure_sound() {
    let settings = test_settings();
    let mut reg = InnovationCounter::new(3);
    let mut g = Genome::new(2, 1);
    for _ in 0..50 {
        g.mutate(&mut reg, &settings);
    }
    // reserved nodes keep their place
    for id in 0..3u16 {
        assert_eq!(g.node_at(id as usize).0, id);
    }
    // every connection is registered and both endpoints exist
    for i in 0..g.connection_count() {
        let ((s, t), _) = g.connection_at(i);
        assert!(reg.get((s, t)).is_some());
        assert!(g.has_node(s));
        assert!(g.has_node(t));
    }
}
