use rand::rngs::StdRng;
use rand::SeedableRng;
use rosomaxa::elitism::Elitism;
use rosomaxa::individual::{is_better, is_same_fitness, Individual};
use rosomaxa::numeric::isqrt;
use rosomaxa::random::Random;
use rosomaxa::statistics::relative_distance;
use std::cmp::Ordering;

/// Hands out the scripted values one after another, then the lower bound.
struct Scripted {
    values: Vec<i32>,
    next: usize,
}

impl Scripted {
    fn new(values: Vec<i32>) -> Self {
        Scripted { values, next: 0 }
    }
}

impl Random for Scripted {
    fn uniform_int(&mut self, low: i32, high: i32) -> i32 {
        let value = if self.next < self.values.len() { self.values[self.next] } else { low };
        self.next += 1;
        assert!(low <= value && value < high);
        value
    }

    fn get_rng(&mut self) -> StdRng {
        StdRng::seed_from_u64(11)
    }
}

fn solution(key: u64, fitness: Vec<i64>) -> Individual {
    Individual {
        key,
        fitness,
        max_load_variance: 0,
        customers_deviation: 0,
        duration_mean: 0,
        distance_mean: 0,
        distance_gravity_mean: 0,
    }
}

fn fitnesses(archive: &Elitism) -> Vec<Vec<i64>> {
    archive.ranked().into_iter().map(|(member, _)| member.fitness).collect()
}

#[test]
fn archive_evicts_the_worst_and_rejects_a_known_fitness() {
    let mut archive = Elitism::new(2, 4);
    assert!(archive.add(solution(1, vec![10_000_000])));
    assert!(archive.add(solution(2, vec![5_000_000])));
    assert!(archive.add(solution(3, vec![8_000_000])));
    assert!(!archive.add(solution(4, vec![5_000_000])));
    assert_eq!(fitnesses(&archive), vec![vec![5_000_000], vec![8_000_000]]);
    assert_eq!(archive.size(), 2);
}

#[test]
fn archive_admits_the_same_solution_once() {
    let mut archive = Elitism::new(3, 4);
    assert!(archive.add(solution(1, vec![7, 3])));
    assert!(!archive.add(solution(1, vec![7, 3])));
    assert_eq!(archive.size(), 1);
}

#[test]
fn archive_rejects_what_is_not_better_than_the_worst_when_full() {
    let mut archive = Elitism::new(2, 4);
    assert!(archive.add(solution(1, vec![1])));
    assert!(archive.add(solution(2, vec![2])));
    assert!(!archive.add(solution(3, vec![3])));
    assert_eq!(fitnesses(&archive), vec![vec![1], vec![2]]);
}

#[test]
fn archive_without_room_admits_nothing() {
    let mut archive = Elitism::new(0, 4);
    assert!(!archive.add(solution(1, vec![1])));
    assert_eq!(archive.size(), 0);
}

#[test]
fn archive_ranks_by_lexicographic_fitness() {
    let mut archive = Elitism::new(5, 4);
    assert!(archive.add(solution(1, vec![2, 9])));
    assert!(archive.add(solution(2, vec![1, 50])));
    assert!(archive.add(solution(3, vec![2, 3])));
    assert!(archive.add(solution(4, vec![1])));
    let ranked = archive.ranked();
    let keys: Vec<u64> = ranked.iter().map(|(member, _)| member.key).collect();
    let ranks: Vec<usize> = ranked.iter().map(|(_, rank)| *rank).collect();
    assert_eq!(keys, vec![4, 2, 3, 1]);
    assert_eq!(ranks, vec![0, 1, 2, 3]);
    assert_eq!(archive.best().unwrap().key, 4);
    assert_eq!(archive.get(2).key, 3);
}

#[test]
fn selection_starts_with_the_best_and_draws_from_the_others() {
    let mut archive = Elitism::new(3, 4);
    archive.add(solution(1, vec![30]));
    archive.add(solution(2, vec![10]));
    archive.add(solution(3, vec![20]));
    let mut random = Scripted::new(vec![2, 1, 2]);
    let keys: Vec<u64> = archive.select(&mut random).iter().map(|member| member.key).collect();
    assert_eq!(keys, vec![2, 1, 3, 1]);
}

#[test]
fn selection_repeats_a_single_member() {
    let mut archive = Elitism::new(3, 3);
    archive.add(solution(9, vec![1]));
    let mut random = Scripted::new(vec![]);
    let keys: Vec<u64> = archive.select(&mut random).iter().map(|member| member.key).collect();
    assert_eq!(keys, vec![9, 9, 9]);
}

#[test]
fn selection_from_an_empty_archive_is_empty() {
    let archive = Elitism::new(3, 3);
    let mut random = Scripted::new(vec![]);
    assert!(archive.select(&mut random).is_empty());
    assert!(archive.best().is_none());
}

#[test]
fn select_some_yields_the_beginning_of_a_selection() {
    let mut archive = Elitism::new(3, 4);
    archive.add(solution(1, vec![30]));
    archive.add(solution(2, vec![10]));
    let mut random = Scripted::new(vec![1]);
    let keys: Vec<u64> =
        archive.select_some(2, &mut random).iter().map(|member| member.key).collect();
    assert_eq!(keys, vec![2, 1]);
    assert!(archive.select_some(0, &mut random).is_empty());
}

#[test]
fn drain_empties_the_archive() {
    let mut archive = Elitism::new(3, 4);
    archive.add(solution(1, vec![3]));
    archive.add(solution(2, vec![1]));
    let keys: Vec<u64> = archive.drain().iter().map(|member| member.key).collect();
    assert_eq!(keys, vec![2, 1]);
    assert_eq!(archive.size(), 0);
    assert_eq!(archive.max_population_size(), 3);
    assert_eq!(archive.selection_size(), 4);
    assert!(archive.add(solution(3, vec![5])));
}

#[test]
fn cmp_orders_by_fitness() {
    let archive = Elitism::new(2, 4);
    let low = solution(1, vec![1, 5]);
    let high = solution(2, vec![1, 6]);
    assert_eq!(archive.cmp(&low, &high), Ordering::Less);
    assert_eq!(archive.cmp(&high, &low), Ordering::Greater);
    assert_eq!(archive.cmp(&low, &solution(3, vec![1, 5])), Ordering::Equal);
    assert!(is_better(&solution(4, vec![1]), &low));
    assert!(is_same_fitness(&low, &solution(5, vec![1, 5])));
    assert!(!is_same_fitness(&low, &solution(6, vec![1])));
}

#[test]
fn deep_copy_keeps_every_field() {
    let first = Individual {
        key: 3,
        fitness: vec![4, 5],
        max_load_variance: 1,
        customers_deviation: -2,
        duration_mean: 3,
        distance_mean: 4,
        distance_gravity_mean: 5,
    };
    let copy = first.deep_copy();
    assert_eq!(copy.key, 3);
    assert_eq!(copy.fitness, vec![4, 5]);
    assert_eq!(copy.customers_deviation, -2);
    assert_eq!(copy.distance_gravity_mean, 5);
    assert!(copy.is_valid());
    let mut wide = first.deep_copy();
    wide.duration_mean = 10_000_000_000_000_001;
    assert!(!wide.is_valid());
}

#[test]
fn isqrt_rounds_down() {
    assert_eq!(isqrt(0), 0);
    assert_eq!(isqrt(1), 1);
    assert_eq!(isqrt(15), 3);
    assert_eq!(isqrt(16), 4);
    assert_eq!(isqrt(1_000_000_000_000), 1_000_000);
    assert_eq!(isqrt(2_000_000_000_000), 1_414_213);
}

#[test]
fn relative_distance_is_the_norm_of_the_relative_differences() {
    assert_eq!(relative_distance(&vec![10], &vec![5]), 500_000);
    assert_eq!(relative_distance(&vec![3, 4], &vec![0, 0]), 1_414_213);
    assert_eq!(relative_distance(&vec![7, 7], &vec![7, 7]), 0);
    assert_eq!(relative_distance(&vec![0], &vec![0]), 0);
    assert_eq!(relative_distance(&vec![-5], &vec![5]), 2_000_000);
    assert_eq!(relative_distance(&vec![1, 2, 3], &vec![1]), 0);
}
