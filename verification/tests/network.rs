use rosomaxa::individual::Individual;
use rosomaxa::elitism::Elitism;
use rosomaxa::network::{are_valid_weights, Network, Node};
use rosomaxa::rosomaxa::{DistanceFilter, IndividualInput, IndividualStorage};

fn solution(key: u64, fitness: i64, first_feature: i64) -> Individual {
    Individual {
        key,
        fitness: vec![fitness],
        max_load_variance: first_feature,
        customers_deviation: 0,
        duration_mean: 0,
        distance_mean: 0,
        distance_gravity_mean: 0,
    }
}

fn seeds() -> Vec<IndividualInput> {
    (0..4).map(|i| IndividualInput::new(solution(i, 100 + i as i64, 0))).collect()
}

/// A map of four seeds with zero weights, learning rate 0.1 and distribution factor 0.25.
fn unit_square(growth_threshold: u64) -> Network<IndividualStorage> {
    let storage = IndividualStorage { population: Elitism::new(2, 2) };
    Network::new(seeds(), growth_threshold, 100_000, 250_000, 100_000, 1000, storage)
}

fn places(network: &Network<IndividualStorage>) -> Vec<(i32, i32)> {
    network.get_nodes().iter().map(|node| (node.x, node.y)).collect()
}

fn node_at(network: &Network<IndividualStorage>, x: i32, y: i32) -> &Node<IndividualStorage> {
    network.get_nodes().iter().find(|node| node.x == x && node.y == y).unwrap()
}

fn is_connected(places: &[(i32, i32)]) -> bool {
    let mut joined = vec![false; places.len()];
    joined[0] = true;
    let mut changed = true;
    while changed {
        changed = false;
        for k in 0..places.len() {
            if joined[k] {
                continue;
            }
            let near = (0..places.len()).any(|j| {
                joined[j]
                    && (places[j].0 - places[k].0).abs() + (places[j].1 - places[k].1).abs() == 1
            });
            if near {
                joined[k] = true;
                changed = true;
            }
        }
    }
    joined.iter().all(|mark| *mark)
}

#[test]
fn new_map_has_four_seeds_on_the_unit_square() {
    let network = unit_square(5_000_000);
    assert_eq!(places(&network), vec![(0, 0), (0, 1), (1, 0), (1, 1)]);
    assert_eq!(network.size(), 4);
    for node in network.get_nodes() {
        assert_eq!(node.weights, vec![0, 0, 0, 0, 0]);
        assert_eq!(node.hits, 0);
        assert_eq!(node.error, 0);
        assert_eq!(node.storage.population.size(), 1);
    }
    assert_eq!(node_at(&network, 1, 0).storage.population.get(0).key, 2);
}

#[test]
fn store_moves_the_best_matching_unit_and_its_neighbours() {
    let mut network = unit_square(5_000_000);
    network.store(IndividualInput::new(solution(9, 50, 1_000_000)), 7);
    assert_eq!(network.size(), 4);
    assert_eq!(node_at(&network, 0, 0).weights, vec![100_000, 0, 0, 0, 0]);
    assert_eq!(node_at(&network, 0, 1).weights, vec![25_000, 0, 0, 0, 0]);
    assert_eq!(node_at(&network, 1, 0).weights, vec![25_000, 0, 0, 0, 0]);
    assert_eq!(node_at(&network, 1, 1).weights, vec![0, 0, 0, 0, 0]);
    let unit = node_at(&network, 0, 0);
    assert_eq!(unit.hits, 1);
    assert_eq!(unit.error, 1_000_000);
    assert_eq!(unit.last_hit, 7);
    assert_eq!(unit.storage.population.size(), 2);
    assert_eq!(unit.storage.population.get(0).key, 9);
    assert_eq!(node_at(&network, 1, 1).hits, 0);
}

#[test]
fn store_picks_the_nearest_node() {
    let storage = IndividualStorage { population: Elitism::new(2, 2) };
    let inputs = vec![
        IndividualInput::new(solution(0, 1, 0)),
        IndividualInput::new(solution(1, 2, 4_000_000)),
        IndividualInput::new(solution(2, 3, 8_000_000)),
        IndividualInput::new(solution(3, 4, -4_000_000)),
    ];
    let mut network = Network::new(inputs, 50_000_000, 100_000, 250_000, 100_000, 1000, storage);
    network.store(IndividualInput::new(solution(9, 5, 7_000_000)), 1);
    assert_eq!(node_at(&network, 1, 0).hits, 1);
    assert_eq!(node_at(&network, 1, 0).weights[0], 7_900_000);
    assert_eq!(node_at(&network, 1, 0).error, 1_000_000);
    // (0,0) and (1,1) are its neighbours; (0,1) is not
    assert_eq!(node_at(&network, 0, 0).weights[0], 175_000);
    assert_eq!(node_at(&network, 1, 1).weights[0], -3_725_000);
    assert_eq!(node_at(&network, 0, 1).weights[0], 4_000_000);
}

#[test]
fn unit_grows_into_its_free_neighbour_positions() {
    let mut network = unit_square(100_000);
    network.store(IndividualInput::new(solution(9, 50, 1_000_000)), 3);
    assert_eq!(places(&network), vec![(0, 0), (0, 1), (1, 0), (1, 1), (-1, 0), (0, -1)]);
    assert_eq!(node_at(&network, 0, 0).error, 0);
    assert_eq!(node_at(&network, 0, 0).hits, 1);
    for place in [(-1, 0), (0, -1)] {
        let node = node_at(&network, place.0, place.1);
        assert_eq!(node.weights, vec![175_000, 0, 0, 0, 0]);
        assert_eq!(node.hits, 0);
        assert_eq!(node.error, 0);
        assert_eq!(node.last_hit, 3);
        assert_eq!(node.storage.population.size(), 0);
        assert_eq!(node.storage.population.max_population_size(), 2);
    }
}

#[test]
fn unit_without_free_neighbour_positions_hands_its_error_on() {
    let mut network = unit_square(0);
    network.store(IndividualInput::new(solution(9, 50, 1_000_000)), 3);
    assert_eq!(network.size(), 6);
    network.store(IndividualInput::new(solution(10, 40, 90_000)), 4);
    assert_eq!(network.size(), 6);
    let unit = node_at(&network, 0, 0);
    assert_eq!(unit.hits, 2);
    assert_eq!(unit.error, 0);
    assert_eq!(unit.weights[0], 99_000);
    for place in [(-1, 0), (1, 0), (0, -1), (0, 1)] {
        assert_eq!(node_at(&network, place.0, place.1).error, 250);
    }
    assert_eq!(node_at(&network, 1, 1).error, 0);
}

#[test]
fn unit_below_the_threshold_keeps_its_error() {
    let mut network = unit_square(5_000_000);
    network.store(IndividualInput::new(solution(9, 50, 1_000_000)), 1);
    network.store(IndividualInput::new(solution(10, 40, 1_000_000)), 2);
    assert_eq!(network.size(), 4);
    assert_eq!(node_at(&network, 0, 0).error, 1_900_000);
    assert_eq!(node_at(&network, 0, 0).hits, 2);
}

#[test]
fn optimize_keeps_corners_and_empty_nodes_and_joins_them() {
    let mut network = unit_square(100_000);
    network.store(IndividualInput::new(solution(9, 50, 1_000_000)), 3);
    // every populated node is near the best fitness; only the corner (1,1) is protected
    let filter = DistanceFilter { best_fitness: vec![100], threshold: 2_000_000 };
    network.optimize(10, &filter);
    let after = places(&network);
    assert_eq!(&after[..3], &[(1, 1), (-1, 0), (0, -1)]);
    assert!(after.contains(&(0, 1)));
    assert!(after.contains(&(-1, 1)));
    assert!(after.contains(&(0, 0)));
    assert!(is_connected(&after));
    let mut sorted = after.clone();
    sorted.sort();
    sorted.dedup();
    assert_eq!(sorted.len(), after.len());
    let stored: usize = network.get_nodes().iter().map(|node| node.storage.population.size()).sum();
    assert!(stored >= 1);
}

#[test]
fn optimize_keeps_far_nodes() {
    let mut network = unit_square(5_000_000);
    // all distances are above the threshold: nothing is removed
    let filter = DistanceFilter { best_fitness: vec![1], threshold: 0 };
    network.optimize(10, &filter);
    assert_eq!(places(&network), vec![(0, 0), (0, 1), (1, 0), (1, 1)]);
    for node in network.get_nodes() {
        assert_eq!(node.storage.population.size(), 1);
    }
}

#[test]
fn optimize_stops_bridging_when_the_budget_is_used() {
    let mut network = unit_square(100_000);
    network.store(IndividualInput::new(solution(9, 50, 1_000_000)), 3);
    let filter = DistanceFilter { best_fitness: vec![100], threshold: 2_000_000 };
    network.optimize(1, &filter);
    let after = places(&network);
    assert_eq!(&after[..4], &[(1, 1), (-1, 0), (0, -1), (0, 1)]);
    // the bridge starts a third of the way from (1,1) to (-1,0), at 58333, and has since
    // learned three times as a neighbour of (1,1)
    let bridge = node_at(&network, 0, 1);
    assert_eq!(bridge.weights, vec![54_068, 0, 0, 0, 0]);
    assert_eq!(bridge.hits, 0);
    assert_eq!(bridge.last_hit, 3);
    assert_eq!(bridge.storage.population.size(), 0);
}

#[test]
fn weights_are_valid_within_the_dimension_and_the_range() {
    assert!(are_valid_weights(&vec![0, -5, 10_000_000_000_000_000], 3));
    assert!(!are_valid_weights(&vec![0, -5], 3));
    assert!(!are_valid_weights(&vec![0, 10_000_000_000_000_001], 2));
    assert!(!are_valid_weights(&vec![-10_000_000_000_000_001], 1));
}
