use neat::Genome;
use neat::Network;
use neat::Task;
use neat::sigmoid;
use neat::FX_ONE;

struct CountingTask {
    count: u8,
}

impl Task for CountingTask {
    fn new(_: u64) -> CountingTask {
        CountingTask { count: 0 }
    }

    fn step(&mut self, inputs: Vec<i64>) -> Vec<i64> {
        assert_eq!(inputs.len(), 1);
        match self.count {
            0 => assert_eq!(inputs[0], 0),
            1 => assert_eq!(inputs[0], 500_000),
            2 => assert_eq!(inputs[0], 500_000),
            _ => {},
        }

        self.count += 1;

        vec![4_000_000]
    }

    fn score(&self) -> Option<i64> {
        if self.count < 3 {
            None
        } else {
            Some(3_000_000)
        }
    }
}

fn chain_genome() -> Genome {
    // one input (node 0), one output (node 1), one hidden node 28;
    // enabled connections 0 -> 28 (weight -3.0) and 28 -> 1 (weight -7.0)
    let mut genome = Genome::new(1, 1);
    genome.insert_node(28, 4_900_000);
    genome.insert_connection(0, 28, -3_000_000, true);
    genome.insert_connection(28, 1, -7_000_000, true);
    genome
}

#[test]
fn test_network() {
    let mut network = Network::new(chain_genome());
    assert_eq!(network.run::<CountingTask>(), Some(3_000_000));
}

#[test]
fn outputs_start_at_zero() {
    let network = Network::new(chain_genome());
    assert_eq!(network.get_outputs(), vec![0i64]);
}

#[test]
fn prop_computes_the_documented_chain() {
    let mut network = Network::new(chain_genome());
    // input 0: hidden node sees sigmoid(0 * -3) = one half, the output
    // sees sigmoid(0.5 * -7 scaled by 4.9) which saturates to zero
    network.prop(vec![0]);
    assert_eq!(network.get_outputs(), vec![0i64]);
    // input 4.0: the hidden node saturates to zero, the output becomes
    // exactly one half
    network.reset();
    network.prop(vec![4_000_000]);
    assert_eq!(network.get_outputs(), vec![500_000i64]);
}

#[test]
fn reset_then_prop_is_repeatable() {
    let mut network = Network::new(chain_genome());
    network.reset();
    network.prop(vec![250_000]);
    let first = network.get_outputs();
    network.reset();
    network.prop(vec![250_000]);
    let second = network.get_outputs();
    assert_eq!(first, second);
}

#[test]
fn sigmoid_is_exact_at_the_anchors() {
    // exactly one half at zero, whatever the coefficient
    assert_eq!(sigmoid(0, 4_900_000), 500_000);
    assert_eq!(sigmoid(0, 1), 500_000);
    // saturation at the asymptotes
    assert_eq!(sigmoid(100_000_000, 1_000_000), FX_ONE);
    assert_eq!(sigmoid(-100_000_000, 1_000_000), 0);
    // monotone flanks stay inside the open interval
    let low = sigmoid(-1_000_000, 1_000_000);
    let high = sigmoid(1_000_000, 1_000_000);
    assert!(0 < low && low < 500_000);
    assert!(500_000 < high && high < FX_ONE);
    // complementary up to the truncation of one division
    assert!(FX_ONE - 1 <= low + high && low + high <= FX_ONE);
}

struct WrongLengthTask;

impl Task for WrongLengthTask {
    fn new(_: u64) -> WrongLengthTask {
        WrongLengthTask
    }

    fn step(&mut self, _inputs: Vec<i64>) -> Vec<i64> {
        vec![0, 0, 0]
    }

    fn score(&self) -> Option<i64> {
        None
    }
}

#[test]
fn run_reports_a_protocol_violation_as_none() {
    let mut network = Network::new(chain_genome());
    assert_eq!(network.run::<WrongLengthTask>(), None);
}
