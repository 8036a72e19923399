use rand::rngs::StdRng;
use rand::SeedableRng;
use rosomaxa::individual::Individual;
use rosomaxa::random::Random;
use rosomaxa::rosomaxa::{
    determine_threshold, Rosomaxa, RosomaxaConfig, RosomaxaOrElitism, SelectionPhase, Statistics,
};

/// A small generator with a seed.
struct Seeded {
    state: u64,
}

impl Seeded {
    fn new(seed: u64) -> Self {
        Seeded { state: seed }
    }

    fn step(&mut self) -> u64 {
        self.state = self.state.wrapping_mul(6364136223846793005).wrapping_add(1442695040888963407);
        self.state >> 33
    }
}

impl Random for Seeded {
    fn uniform_int(&mut self, low: i32, high: i32) -> i32 {
        let width = (high as i64 - low as i64) as u64;
        (low as i64 + (self.step() % width) as i64) as i32
    }

    fn get_rng(&mut self) -> StdRng {
        let seed = self.step();
        StdRng::seed_from_u64(seed)
    }
}

fn solution(key: u64, fitness: i64, feature: i64) -> Individual {
    Individual {
        key,
        fitness: vec![fitness],
        max_load_variance: feature,
        customers_deviation: feature / 2,
        duration_mean: 0,
        distance_mean: -feature,
        distance_gravity_mean: 0,
    }
}

fn config(selection_size: usize) -> RosomaxaConfig {
    RosomaxaConfig::with_selection_size(selection_size)
}

fn statistics(generation: usize, termination_estimate: i64) -> Statistics {
    Statistics { generation, termination_estimate }
}

fn population(selection_size: usize, seed: u64) -> Rosomaxa<Seeded> {
    match Rosomaxa::new(Seeded::new(seed), config(selection_size)) {
        Ok(population) => population,
        Err(()) => panic!("the sizes allow the phases"),
    }
}

/// A population that has just left the initial phase and listed its nodes.
fn exploring(selection_size: usize, seed: u64) -> Rosomaxa<Seeded> {
    let mut population = population(selection_size, seed);
    for i in 0..4 {
        population.add(solution(i, 100 + i as i64, i as i64 * 1_000_000));
    }
    population.on_generation(&statistics(1, 0));
    population.on_generation(&statistics(2, 0));
    population
}

fn places(population: &Rosomaxa<Seeded>) -> Vec<(i32, i32)> {
    population.network().unwrap().get_nodes().iter().map(|node| (node.x, node.y)).collect()
}

fn keys(picks: &[Individual]) -> Vec<u64> {
    picks.iter().map(|pick| pick.key).collect()
}

#[test]
fn default_settings() {
    let config = config(8);
    assert_eq!(config.selection_size, 8);
    assert_eq!(config.elite_size, 2);
    assert_eq!(config.node_size, 2);
    assert_eq!(config.growth_threshold, 5_000_000);
    assert_eq!(config.reduction_factor, 100_000);
    assert_eq!(config.distribution_factor, 250_000);
    assert_eq!(config.learning_rate, 100_000);
    assert_eq!(config.hit_memory, 1000);
    assert_eq!(config.exploration_ratio, 900_000);
    assert!(config.is_valid());
}

#[test]
fn settings_out_of_range_are_not_valid() {
    let mut settings = config(8);
    settings.learning_rate = 1_000_000;
    assert!(!settings.is_valid());
    let mut settings = config(8);
    settings.hit_memory = 0;
    assert!(!settings.is_valid());
    let mut settings = config(8);
    settings.reduction_factor = 0;
    assert!(!settings.is_valid());
}

#[test]
fn new_reports_sizes_that_do_not_allow_the_phases() {
    let mut small_elite = config(4);
    small_elite.elite_size = 1;
    assert!(Rosomaxa::new(Seeded::new(1), small_elite).is_err());
    let mut small_nodes = config(4);
    small_nodes.node_size = 1;
    assert!(Rosomaxa::new(Seeded::new(1), small_nodes).is_err());
    assert!(Rosomaxa::new(Seeded::new(1), config(3)).is_err());
    assert!(Rosomaxa::new(Seeded::new(1), config(4)).is_ok());
}

#[test]
fn new_with_fallback_falls_back_to_an_elite_archive() {
    match Rosomaxa::new_with_fallback(Seeded::new(1), config(3)) {
        RosomaxaOrElitism::Elitism { population, .. } => {
            assert_eq!(population.max_population_size(), 2);
            assert_eq!(population.selection_size(), 3);
            assert_eq!(population.size(), 0);
        }
        RosomaxaOrElitism::Rosomaxa(_) => panic!("three selected do not allow the phases"),
    }
    match Rosomaxa::new_with_fallback(Seeded::new(1), config(4)) {
        RosomaxaOrElitism::Rosomaxa(population) => {
            assert_eq!(population.selection_phase(), SelectionPhase::Initial);
        }
        RosomaxaOrElitism::Elitism { .. } => panic!("four selected allow the phases"),
    }
}

#[test]
fn bootstrap_to_exploration() {
    let mut population = population(4, 3);
    for i in 0..3 {
        population.add(solution(i, 100 + i as i64, i as i64 * 1_000_000));
    }
    population.on_generation(&statistics(3, 0));
    assert_eq!(population.selection_phase(), SelectionPhase::Initial);
    assert_eq!(population.bootstrap_size(), 3);
    assert!(population.network().is_none());
    population.add(solution(3, 103, 3_000_000));
    population.on_generation(&statistics(4, 0));
    assert_eq!(population.selection_phase(), SelectionPhase::Exploration);
    assert_eq!(places(&population), vec![(0, 0), (0, 1), (1, 0), (1, 1)]);
    let network = population.network().unwrap();
    assert_eq!(network.get_nodes()[2].weights, vec![2_000_000, 1_000_000, 0, -2_000_000, 0]);
    assert_eq!(network.get_nodes()[2].storage.population.get(0).key, 2);
    assert!(population.populations().is_empty());
}

#[test]
fn initial_phase_keeps_four_solutions_at_most() {
    let mut population = population(4, 3);
    for i in 0..6 {
        population.add(solution(i, 100 - i as i64, 0));
    }
    assert_eq!(population.bootstrap_size(), 4);
    assert_eq!(population.size(), 2);
}

#[test]
fn exploration_to_exploitation() {
    let mut population = exploring(4, 5);
    assert_eq!(population.selection_phase(), SelectionPhase::Exploration);
    population.on_generation(&statistics(100, 900_000));
    assert_eq!(population.selection_phase(), SelectionPhase::Exploitation);
    assert!(population.network().is_none());
    assert!(population.add(solution(9, 1, 0)));
    assert!(population.network().is_none());
    population.on_generation(&statistics(101, 0));
    assert_eq!(population.selection_phase(), SelectionPhase::Exploitation);
    assert_eq!(keys(&population.select()), vec![9, 0, 0, 0]);
}

#[test]
fn exploration_goes_on_below_the_ratio() {
    let mut population = exploring(4, 5);
    population.on_generation(&statistics(100, 899_999));
    assert_eq!(population.selection_phase(), SelectionPhase::Exploration);
}

#[test]
fn exploration_feeds_the_map() {
    let mut population = exploring(4, 5);
    population.add(solution(9, 200, 2_900_000));
    let network = population.network().unwrap();
    let unit = &network.get_nodes()[3];
    assert_eq!(unit.hits, 1);
    assert_eq!(unit.last_hit, 2);
    assert_eq!(unit.storage.population.size(), 2);
    assert_eq!(population.size(), 1);
}

#[test]
fn selection_shape() {
    let mut population = exploring(6, 7);
    let listed = population.populations();
    let mut sorted = listed.clone();
    sorted.sort();
    assert_eq!(sorted, vec![0, 1, 2, 3]);
    let picks = keys(&population.select());
    assert_eq!(picks.len(), 6);
    assert_eq!(picks[0], 0);
    assert_eq!(picks[1], 0);
    assert_eq!(picks[2], listed[0] as u64);
    assert_eq!(picks[3], listed[0] as u64);
    assert_eq!(picks[4], listed[1] as u64);
    assert_eq!(picks[5], listed[1] as u64);
}

#[test]
fn selection_takes_the_best_and_another_from_each_archive() {
    let mut population = exploring(10, 7);
    // a better solution near the second seed joins the elite and that node
    assert!(population.add(solution(9, 50, 1_000_000)));
    population.on_generation(&statistics(3, 0));
    let listed = population.populations();
    let picks = keys(&population.select());
    assert_eq!(picks.len(), 10);
    assert_eq!(&picks[..2], &[9, 0]);
    let at = listed.iter().position(|node| *node == 1).unwrap();
    assert_eq!(&picks[2 + 2 * at..4 + 2 * at], &[9, 1]);
}

#[test]
fn selection_in_the_initial_phase_comes_from_the_elite() {
    let mut population = population(4, 3);
    assert!(population.select().is_empty());
    population.add(solution(1, 10, 0));
    assert_eq!(keys(&population.select()), vec![1, 1, 1, 1]);
    population.add(solution(2, 5, 0));
    assert_eq!(keys(&population.select()), vec![2, 1, 1, 1]);
}

#[test]
fn add_admits_improvements_only() {
    let mut population = population(4, 3);
    assert!(population.add(solution(1, 10, 0)));
    assert!(!population.add(solution(2, 12, 0)));
    assert!(!population.add(solution(3, 10, 0)));
    assert!(population.add(solution(4, 9, 0)));
    let ranked: Vec<(u64, usize)> =
        population.ranked().iter().map(|(member, rank)| (member.key, *rank)).collect();
    assert_eq!(ranked, vec![(4, 0), (1, 1)]);
    assert_eq!(population.size(), 2);
    assert!(population.add(solution(5, 8, 0)));
    let ranked: Vec<u64> = population.ranked().iter().map(|(member, _)| member.key).collect();
    assert_eq!(ranked, vec![5, 4]);
}

#[test]
fn add_all_says_whether_one_was_admitted() {
    let mut population = population(4, 3);
    assert!(population.add_all(vec![solution(1, 10, 0), solution(2, 11, 0)]));
    assert!(!population.add_all(vec![solution(3, 10, 0), solution(4, 20, 0)]));
    assert!(population.add_all(vec![solution(5, 30, 0), solution(6, 9, 0), solution(7, 9, 0)]));
    assert!(!population.add_all(vec![]));
    assert_eq!(population.size(), 2);
}

#[test]
fn same_solution_twice_is_admitted_once() {
    let mut population = population(4, 3);
    assert!(population.add(solution(1, 10, 0)));
    assert!(!population.add(solution(1, 10, 0)));
    assert_eq!(population.size(), 1);
}

#[test]
fn cmp_compares_by_fitness() {
    let population = population(4, 3);
    let order = population.cmp(&solution(1, 10, 0), &solution(2, 11, 0));
    assert_eq!(order, std::cmp::Ordering::Less);
}

#[test]
fn on_generation_twice_changes_nothing_but_the_order_of_the_nodes() {
    let mut population = exploring(6, 11);
    population.add(solution(9, 90, 500_000));
    population.on_generation(&statistics(7, 100_000));
    let nodes = places(&population);
    let weights: Vec<Vec<i64>> =
        population.network().unwrap().get_nodes().iter().map(|node| node.weights.clone()).collect();
    let mut listed = population.populations();
    let elite = keys(&population.ranked().into_iter().map(|(m, _)| m).collect::<Vec<_>>());
    population.on_generation(&statistics(7, 100_000));
    assert_eq!(places(&population), nodes);
    let again: Vec<Vec<i64>> =
        population.network().unwrap().get_nodes().iter().map(|node| node.weights.clone()).collect();
    assert_eq!(again, weights);
    let mut relisted = population.populations();
    listed.sort();
    relisted.sort();
    assert_eq!(relisted, listed);
    assert_eq!(keys(&population.ranked().into_iter().map(|(m, _)| m).collect::<Vec<_>>()), elite);
    assert_eq!(population.selection_phase(), SelectionPhase::Exploration);
}

#[test]
fn optimization_keeps_the_elite_and_a_connected_map() {
    let mut settings = config(6);
    settings.growth_threshold = 100_000;
    settings.hit_memory = 10;
    let mut population = Rosomaxa::new(Seeded::new(13), settings).ok().unwrap();
    for i in 0..4 {
        population.add(solution(i, 100 + i as i64, i as i64 * 1_000_000));
    }
    population.on_generation(&statistics(1, 0));
    for i in 0..12 {
        population.add(solution(10 + i, 90 - i as i64, (i as i64 - 6) * 3_000_000));
    }
    let grown = places(&population).len();
    assert!(grown > 4);
    let elite = keys(&population.ranked().into_iter().map(|(m, _)| m).collect::<Vec<_>>());
    population.on_generation(&statistics(20, 0));
    assert_eq!(keys(&population.ranked().into_iter().map(|(m, _)| m).collect::<Vec<_>>()), elite);
    let after = places(&population);
    let mut sorted = after.clone();
    sorted.sort();
    sorted.dedup();
    assert_eq!(sorted.len(), after.len());
    let network = population.network().unwrap();
    let mut expected: Vec<usize> = (0..network.size())
        .filter(|k| network.get_nodes()[*k].storage.population.size() > 0)
        .collect();
    let mut listed = population.populations();
    listed.sort();
    expected.sort();
    assert_eq!(listed, expected);
    for node in network.get_nodes() {
        assert!(node.storage.population.size() <= 2);
        assert_eq!(node.weights.len(), 5);
    }
}

#[test]
fn same_seed_and_inputs_give_the_same_selection_and_nodes() {
    let run = |seed: u64| {
        let mut settings = config(8);
        settings.growth_threshold = 100_000;
        settings.hit_memory = 5;
        let mut population = Rosomaxa::new(Seeded::new(seed), settings).ok().unwrap();
        let mut selected = vec![];
        for generation in 0..12usize {
            for i in 0..3u64 {
                let key = generation as u64 * 3 + i;
                population.add(solution(key, 1000 - key as i64 * 7, (key as i64 % 5 - 2) * 700_000));
            }
            population.on_generation(&statistics(generation, 0));
            selected.push(keys(&population.select()));
        }
        (selected, places(&population))
    };
    assert_eq!(run(21), run(21));
}

#[test]
fn elite_stays_ranked_and_within_its_size() {
    let mut settings = config(4);
    settings.elite_size = 3;
    let mut population = Rosomaxa::new(Seeded::new(5), settings).ok().unwrap();
    for (key, fitness) in [50, 40, 45, 30, 30, 20, 35, 10].into_iter().enumerate() {
        population.add(solution(key as u64, fitness, 0));
        let fitnesses: Vec<i64> =
            population.ranked().iter().map(|(member, _)| member.fitness[0]).collect();
        assert!(fitnesses.len() <= 3);
        assert!(fitnesses.windows(2).all(|pair| pair[0] < pair[1]));
    }
    let fitnesses: Vec<i64> =
        population.ranked().iter().map(|(member, _)| member.fitness[0]).collect();
    assert_eq!(fitnesses, vec![10, 20, 30]);
}

#[test]
fn threshold_stands_a_quarter_down_the_falling_distances() {
    assert_eq!(determine_threshold(vec![5, 1, 9, 3]), Some(5));
    assert_eq!(determine_threshold(vec![7]), Some(7));
    assert_eq!(determine_threshold(vec![2, 8, 4]), Some(8));
    assert_eq!(determine_threshold(vec![4, 4, 1, 9, 6, 2, 8, 3]), Some(6));
    assert_eq!(determine_threshold(vec![]), None);
}

#[test]
fn nodes_are_listed_in_a_drawn_order() {
    let orders: Vec<Vec<usize>> = (0..20).map(|seed| exploring(6, seed).populations()).collect();
    for order in &orders {
        let mut sorted = order.clone();
        sorted.sort();
        assert_eq!(sorted, vec![0, 1, 2, 3]);
    }
    assert!(orders.iter().any(|order| *order != vec![0, 1, 2, 3]));
}
