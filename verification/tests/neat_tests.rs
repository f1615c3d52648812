use neat::Genome;
use neat::Neat;
use neat::NeatSettings;
use neat::Organism;
use neat::Task;
use neat::retain_top_half;

struct ThreeStepTask {
    count: u8,
}

impl Task for ThreeStepTask {
    fn new(_: u64) -> ThreeStepTask {
        ThreeStepTask { count: 0 }
    }

    fn step(&mut self, _inputs: Vec<i64>) -> Vec<i64> {
        self.count += 1;
        vec![300_000, -300_000]
    }

    fn score(&self) -> Option<i64> {
        if self.count < 3 {
            None
        } else {
            Some(self.count as i64 * 1_000_000)
        }
    }
}

#[test]
fn population_size_is_restored_every_generation() {
    let mut neat = Neat::<ThreeStepTask>::new(24, 2, 1, NeatSettings::default());
    assert_eq!(neat.population.len(), 24);
    for _ in 0..4 {
        let result = neat.step();
        assert!(result.is_some());
        assert_eq!(neat.population.len(), 24);
    }
}

#[test]
fn step_reports_the_best_fitness() {
    let mut neat = Neat::<ThreeStepTask>::default(10, 2, 1);
    let (network, fitness) = neat.step().unwrap();
    // the task always ends after exactly three steps with score 3.0
    assert_eq!(fitness, 3_000_000);
    assert_eq!(network.get_outputs().len(), 1);
    assert!(neat.species() >= 1);
}

fn organism_with_fitness(f: i64) -> Organism {
    let mut o = Organism::new(Genome::new(1, 1));
    o.fitness = Some(f);
    o
}

#[test]
fn culling_keeps_the_top_half_and_never_empties_a_pair() {
    let group = vec![
        organism_with_fitness(1_000_000),
        organism_with_fitness(5_000_000),
        organism_with_fitness(3_000_000),
        organism_with_fitness(4_000_000),
        organism_with_fitness(2_000_000),
    ];
    let kept = retain_top_half(group);
    assert_eq!(kept.len(), 2);
    assert_eq!(kept[0].fitness, Some(5_000_000));
    assert_eq!(kept[1].fitness, Some(4_000_000));

    let pair = vec![organism_with_fitness(-7), organism_with_fitness(9)];
    let kept = retain_top_half(pair);
    assert_eq!(kept.len(), 1);
    assert_eq!(kept[0].fitness, Some(9));
}

#[test]
fn default_settings_match_their_documentation() {
    let s = NeatSettings::default();
    assert_eq!(s.weight, 1_000_000);
    assert_eq!(s.weight_mutate, 2_000_000);
    assert_eq!(s.weight_max, 10_000_000);
    assert_eq!(s.weight_mutate_rate, 800_000);
    assert_eq!(s.add_connection_rate, 350_000);
    assert_eq!(s.add_node_rate, 150_000);
    assert_eq!(s.activation_mutate, 50_000);
    assert_eq!(s.activation_mutate_rate, 100_000);
    assert_eq!(s.connections_diff, 500_000);
    assert_eq!(s.weight_diff, 100_000);
    assert_eq!(s.species_threshold, 700_000);
    assert!(s.feedforward);
    assert!(!s.reset_fitness);
}

struct WrongLengthTask;

impl Task for WrongLengthTask {
    fn new(_: u64) -> WrongLengthTask {
        WrongLengthTask
    }

    fn step(&mut self, _inputs: Vec<i64>) -> Vec<i64> {
        vec![0, 0, 0]
    }

    fn score(&self) -> Option<i64> {
        None
    }
}

#[test]
fn step_reports_a_protocol_violation_as_none() {
    let mut neat = Neat::<WrongLengthTask>::default(5, 1, 1);
    assert!(neat.step().is_none());
}

#[test]
fn organisms_start_unevaluated() {
    let o = Organism::new(Genome::new(2, 2));
    assert_eq!(o.fitness, None);
}
