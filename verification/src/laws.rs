use crate::elitism::{count_better, lemma_better_members_come_first, ElitismView};
use crate::gsom::{
    absorbed, adjacent, any_missing, best_upto, bmu, bridge_place, distinct_positions,
    distributed, gap, grown, is_nearest_gap, linked, manhattan, matches_better, missing,
    neighbour_rate, occupied, step, stored, valid_weights, NetworkView, NodeView,
};
use crate::individual::{fitness_less, lemma_fitness_order, same_fitness, IndividualView};
use crate::network::{lemma_best_upto_range, lemma_grown_nodes, lemma_joined_step, sprout_place};
use crate::numeric::{lemma_scaled_bounds, scaled, SCALE};
use crate::rosomaxa::{
    lemma_improvement_is_admitted, lemma_selection_begins, lemma_selection_len, PhaseView,
    RosomaxaView, Statistics,
};
use vstd::prelude::*;

verus! {

/// An archive in order holds no more members than its size allows, and its first member
/// is strictly better than every other.
pub proof fn lemma_archive_bounded_and_best_first(archive: ElitismView)
    requires
        archive.wf(),
    ensures
        archive.individuals.len() <= archive.max_population_size,
        forall|i: int|
            0 < i < archive.individuals.len() ==> fitness_less(
                archive.individuals[0].fitness,
                (#[trigger] archive.individuals[i]).fitness,
            ),
{
}

/// An archive in order holds no two members of the same fitness.
pub proof fn lemma_archive_members_differ(archive: ElitismView)
    requires
        archive.wf(),
    ensures
        forall|i: int, j: int|
            0 <= i < archive.individuals.len() && 0 <= j < archive.individuals.len() && i != j
                ==> !same_fitness(
                (#[trigger] archive.individuals[i]).fitness,
                (#[trigger] archive.individuals[j]).fitness,
            ),
{
    let members = archive.individuals;
    assert forall|i: int, j: int|
        0 <= i < members.len() && 0 <= j < members.len() && i != j implies !same_fitness(
        (#[trigger] members[i]).fitness,
        (#[trigger] members[j]).fitness,
    ) by {
        lemma_fitness_order(members[i].fitness, members[j].fitness, members[i].fitness);
        lemma_fitness_order(members[j].fitness, members[i].fitness, members[j].fitness);
        if i < j {
            assert(fitness_less(members[i].fitness, members[j].fitness));
        } else {
            assert(fitness_less(members[j].fitness, members[i].fitness));
        }
    }
}

/// A solution offered twice in a row is admitted once at most: after the first offer the
/// archive does not admit it.
pub proof fn lemma_second_offer_rejected(archive: ElitismView, candidate: IndividualView)
    requires
        archive.wf(),
    ensures
        !archive.add(candidate).admits(candidate),
{
    if archive.admits(candidate) {
        let members = archive.individuals;
        let at = count_better(members, candidate.fitness);
        lemma_better_members_come_first(members, candidate.fitness);
        let grown = members.insert(at, candidate);
        let after = archive.add(candidate).individuals;
        if grown.len() > archive.max_population_size {
            assert(fitness_less(candidate.fitness, members[members.len() - 1].fitness));
            lemma_fitness_order(
                candidate.fitness,
                members[members.len() - 1].fitness,
                candidate.fitness,
            );
            assert(at < members.len());
        }
        assert(after[at] == candidate);
        lemma_fitness_order(candidate.fitness, candidate.fitness, candidate.fitness);
        assert(same_fitness(after[at].fitness, candidate.fitness));
    }
}

/// A solution added to the population twice in a row is no improvement the second time.
pub proof fn lemma_same_solution_twice(view: RosomaxaView, candidate: IndividualView)
    requires
        view.wf(),
    ensures
        !view.added(candidate).improves(candidate),
{
    lemma_fitness_order(candidate.fitness, candidate.fitness, candidate.fitness);
    if view.improves(candidate) {
        let members = view.elite.individuals;
        lemma_improvement_is_admitted(view.elite, candidate);
        lemma_better_members_come_first(members, candidate.fitness);
        if members.len() > 0 {
            lemma_fitness_order(candidate.fitness, members[0].fitness, candidate.fitness);
        }
        assert(count_better(members, candidate.fitness) == 0);
        let grown = members.insert(0, candidate);
        assert(grown[0] == candidate);
        assert(view.added(candidate).elite.individuals[0] == candidate);
    }
}

/// One of the solutions is admitted exactly when the solution at some place is an
/// improvement on the population that the solutions before it have left.
pub proof fn lemma_any_admitted(view: RosomaxaView, candidates: Seq<IndividualView>)
    ensures
        view.any_admitted(candidates) <==> exists|i: int|
            0 <= i < candidates.len() && view.added_all(#[trigger] candidates.take(i)).improves(
                candidates[i],
            ),
    decreases candidates.len(),
{
    if candidates.len() > 0 {
        let front = candidates.drop_last();
        let n = candidates.len() - 1;
        lemma_any_admitted(view, front);
        assert(candidates.take(n) == front);
        if view.any_admitted(candidates) {
            if view.any_admitted(front) {
                let i = choose|i: int|
                    0 <= i < front.len() && view.added_all(#[trigger] front.take(i)).improves(
                        front[i],
                    );
                assert(front.take(i) == candidates.take(i));
                assert(view.added_all(candidates.take(i)).improves(candidates[i]));
            } else {
                assert(view.added_all(candidates.take(n)).improves(candidates[n]));
            }
        }
        if exists|i: int|
            0 <= i < candidates.len() && view.added_all(#[trigger] candidates.take(i)).improves(
                candidates[i],
            ) {
            let i = choose|i: int|
                0 <= i < candidates.len() && view.added_all(
                    #[trigger] candidates.take(i),
                ).improves(candidates[i]);
            if i < n {
                assert(front.take(i) == candidates.take(i));
                assert(view.added_all(front.take(i)).improves(front[i]));
            }
        }
    }
}

/// A selection has as many members as the population offers, the selection size at most,
/// and begins with the best member of the elite.
pub proof fn lemma_selection_begins_with_best(view: RosomaxaView, picks: Seq<IndividualView>)
    requires
        view.wf(),
        view.selects(picks),
    ensures
        picks.len() == view.selection_len(),
        picks.len() <= view.config.selection_size,
        picks.len() > 0 ==> view.elite.individuals.len() > 0 && picks[0]
            == view.elite.individuals[0],
{
    match view.phase {
        PhaseView::Exploration { .. } => {
            let archives = view.archives();
            let limit = view.config.selection_size as nat;
            assert(archives[0] == view.elite);
            lemma_selection_len(archives, picks, limit);
            lemma_selection_begins(archives, picks, limit);
            let first = picks.take(2);
            assert(view.elite.may_pick(0, first[0]));
        },
        _ => {
            if picks.len() > 0 {
                assert(view.elite.may_pick(0, picks[0]));
            }
        },
    }
}

/// The best matching unit matches the input better than every other node: it is nearer,
/// or as near and earlier in the order of positions.
pub proof fn lemma_bmu_matches_best<SV>(nodes: Seq<NodeView<SV>>, weights: Seq<i64>, n: int)
    requires
        0 < n <= nodes.len(),
        distinct_positions(nodes),
    ensures
        0 <= best_upto(nodes, weights, n) < n,
        forall|j: int|
            0 <= j < n && j != best_upto(nodes, weights, n) ==> #[trigger] matches_better(
                nodes,
                weights,
                best_upto(nodes, weights, n),
                j,
            ),
    decreases n,
{
    lemma_best_upto_range(nodes, weights, n);
    if n > 1 {
        lemma_bmu_matches_best(nodes, weights, n - 1);
        let before = best_upto(nodes, weights, n - 1);
        let best = best_upto(nodes, weights, n);
        assert forall|j: int| 0 <= j < n && j != best implies #[trigger] matches_better(
            nodes,
            weights,
            best,
            j,
        ) by {
            if best == n - 1 {
                if j != before {
                    assert(matches_better(nodes, weights, before, j));
                }
            } else {
                if j == n - 1 {
                    assert(!matches_better(nodes, weights, n - 1, before));
                    assert(!(nodes[before].x == nodes[n - 1].x && nodes[before].y == nodes[n
                        - 1].y));
                } else {
                    assert(matches_better(nodes, weights, before, j));
                }
            }
        }
    }
}

/// After an input is stored, the best matching unit has moved towards the input by
/// exactly the learning rate times the difference, component by component, and each of
/// its neighbours by the learning rate times the distribution factor times the
/// difference; no other node has moved.
pub proof fn lemma_store_moves_unit<SV>(
    net: NetworkView<SV>,
    weights: Seq<i64>,
    time: nat,
    storage: SV,
    empty: SV,
)
    requires
        net.nodes.len() > 0,
        0 < net.learning_rate < SCALE,
        0 < net.distribution_factor < SCALE,
        valid_weights(weights, net.dimension),
        forall|k: int| 0 <= k < net.nodes.len() ==> valid_weights(
            (#[trigger] net.nodes[k]).weights,
            net.dimension,
        ),
    ensures
        ({
            let b = bmu(net.nodes, weights);
            let after = stored(net, weights, time, storage, empty).nodes;
            &&& 0 <= b < net.nodes.len() <= after.len()
            &&& forall|k: int, i: int|
                0 <= k < net.nodes.len() && 0 <= i < net.dimension ==> (
                #[trigger] after[k].weights[i]) - net.nodes[k].weights[i] == scaled(
                    if k == b {
                        net.learning_rate
                    } else if adjacent(
                        net.nodes[k].x,
                        net.nodes[k].y,
                        net.nodes[b].x,
                        net.nodes[b].y,
                    ) {
                        neighbour_rate(net)
                    } else {
                        0
                    },
                    weights[i] - net.nodes[k].weights[i],
                )
        }),
{
    lemma_best_upto_range(net.nodes, weights, net.nodes.len() as int);
    let b = bmu(net.nodes, weights);
    let nodes = absorbed(net, weights, time, storage);
    lemma_grown_nodes(nodes, b, 4, time, empty);
    let after = stored(net, weights, time, storage, empty).nodes;
    lemma_scaled_bounds(net.learning_rate, net.distribution_factor);
    assert forall|k: int, i: int|
        0 <= k < net.nodes.len() && 0 <= i < net.dimension implies (
    #[trigger] after[k].weights[i]) - net.nodes[k].weights[i] == scaled(
        if k == b {
            net.learning_rate
        } else if adjacent(net.nodes[k].x, net.nodes[k].y, net.nodes[b].x, net.nodes[b].y) {
            neighbour_rate(net)
        } else {
            0
        },
        weights[i] - net.nodes[k].weights[i],
    ) by {
        let old = net.nodes[k].weights;
        assert(valid_weights(old, net.dimension));
        assert(after[k].weights == nodes[k].weights);
        let rate = if k == b {
            net.learning_rate
        } else if adjacent(net.nodes[k].x, net.nodes[k].y, net.nodes[b].x, net.nodes[b].y) {
            neighbour_rate(net)
        } else {
            0
        };
        lemma_scaled_bounds(rate, weights[i] - old[i]);
        if rate == 0 {
            assert(scaled(0, weights[i] - old[i]) == 0) by (nonlinear_arith);
        }
    }
}

/// How many of the neighbour positions of node `b` in the directions before `d` are free.
pub open spec fn missing_count<SV>(nodes: Seq<NodeView<SV>>, b: int, d: int) -> nat
    decreases d,
{
    if d <= 0 {
        0
    } else {
        missing_count(nodes, b, d - 1) + if missing(nodes, b, d - 1) {
            1nat
        } else {
            0nat
        }
    }
}

/// Growth in the directions before `d` adds one node at each free neighbour position
/// among them, and nowhere else.
pub proof fn lemma_grown_places<SV>(nodes: Seq<NodeView<SV>>, b: int, d: int, time: nat, empty: SV)
    requires
        0 <= b < nodes.len(),
        0 <= d <= 4,
    ensures
        ({
            let after = grown(nodes, b, d, time, empty);
            &&& after.len() == nodes.len() + missing_count(nodes, b, d)
            &&& after[b].error == 0
            &&& forall|e: int|
                0 <= e < d && #[trigger] missing(nodes, b, e) ==> exists|k: int|
                    nodes.len() <= k < after.len() && (#[trigger] after[k]).x == nodes[b].x
                        + step(e).0 && after[k].y == nodes[b].y + step(e).1
            &&& forall|k: int|
                nodes.len() <= k < after.len() ==> sprout_place(
                    nodes,
                    b,
                    d,
                    (#[trigger] after[k]).x,
                    after[k].y,
                )
        }),
    decreases d,
{
    if d > 0 {
        lemma_grown_places(nodes, b, d - 1, time, empty);
        let before = grown(nodes, b, d - 1, time, empty);
        let after = grown(nodes, b, d, time, empty);
        assert forall|e: int| 0 <= e < d && #[trigger] missing(nodes, b, e) implies exists|k: int|
            nodes.len() <= k < after.len() && (#[trigger] after[k]).x == nodes[b].x + step(e).0
                && after[k].y == nodes[b].y + step(e).1 by {
            if e < d - 1 {
                let k = choose|k: int|
                    nodes.len() <= k < before.len() && (#[trigger] before[k]).x == nodes[b].x
                        + step(e).0 && before[k].y == nodes[b].y + step(e).1;
                assert(after[k] == before[k]);
            } else {
                let k = before.len() as int;
                assert(after[k].x == nodes[b].x + step(e).0);
            }
        }
        assert forall|k: int| nodes.len() <= k < after.len() implies sprout_place(
            nodes,
            b,
            d,
            (#[trigger] after[k]).x,
            after[k].y,
        ) by {
            if k < before.len() {
                assert(after[k] == before[k]);
            }
        }
    }
}

/// When the error of the best matching unit has passed the growth threshold, the unit
/// grows: one new node at each of its free neighbour positions and nowhere else; or,
/// where no neighbour position is free, it hands its error on and no node is added. Its
/// error is zero afterwards. Below the threshold the nodes stay as the input left them.
pub proof fn lemma_store_growth<SV>(
    net: NetworkView<SV>,
    weights: Seq<i64>,
    time: nat,
    storage: SV,
    empty: SV,
)
    requires
        net.nodes.len() > 0,
    ensures
        ({
            let b = bmu(net.nodes, weights);
            let nodes = absorbed(net, weights, time, storage);
            let after = stored(net, weights, time, storage, empty).nodes;
            &&& nodes.len() == net.nodes.len()
            &&& 0 <= b < nodes.len()
            &&& if nodes[b].error <= net.growth_threshold {
                after == nodes
            } else if any_missing(nodes, b) {
                &&& after.len() == nodes.len() + missing_count(nodes, b, 4)
                &&& after.len() > nodes.len()
                &&& after[b].error == 0
                &&& forall|e: int|
                    0 <= e < 4 && #[trigger] missing(nodes, b, e) ==> exists|k: int|
                        nodes.len() <= k < after.len() && (#[trigger] after[k]).x == nodes[b].x
                            + step(e).0 && after[k].y == nodes[b].y + step(e).1
                &&& forall|k: int|
                    nodes.len() <= k < after.len() ==> sprout_place(
                        nodes,
                        b,
                        4,
                        (#[trigger] after[k]).x,
                        after[k].y,
                    )
            } else {
                &&& after == distributed(net, nodes, b)
                &&& after.len() == nodes.len()
                &&& after[b].error == 0
            }
        }),
{
    lemma_best_upto_range(net.nodes, weights, net.nodes.len() as int);
    let b = bmu(net.nodes, weights);
    let nodes = absorbed(net, weights, time, storage);
    lemma_grown_places(nodes, b, 4, time, empty);
    reveal_with_fuel(missing_count, 5);
}

/// The end of a generation, taken note of twice with the same statistics, leaves the
/// population as the first note left it, but for the order in which the nodes are
/// listed. This holds where no optimisation of the map is due and the first note does
/// not end the initial phase.
pub proof fn lemma_generation_idempotent(
    start: RosomaxaView,
    statistics: Statistics,
    once: RosomaxaView,
    twice: RosomaxaView,
)
    requires
        start.generation_step(statistics, once),
        once.generation_step(statistics, twice),
        start.phase matches PhaseView::Initial { individuals } ==> individuals.len() < 4,
        start.phase is Exploration ==> !start.optimization_due(statistics),
    ensures
        twice.config == once.config,
        twice.elite == once.elite,
        twice.selection_phase() == once.selection_phase(),
        match once.phase {
            PhaseView::Exploration { time, network, populations } => twice.phase matches PhaseView::Exploration {
                time: again,
                network: kept,
                populations: listed,
            } && again == time && kept == network && listed.to_multiset()
                == populations.to_multiset(),
            _ => twice.phase == once.phase,
        },
{
}

/// The place of a bridging node lies on a shortest path between the two nodes that it
/// helps to join: it is free, next to the joined node, and one step nearer to the other.
pub proof fn lemma_bridge_place<SV>(nodes: Seq<NodeView<SV>>, a: int, u: int)
    requires
        distinct_positions(nodes),
        is_nearest_gap(nodes, a, u),
    ensures
        ({
            let place = bridge_place(nodes[a].x, nodes[a].y, nodes[u].x, nodes[u].y);
            &&& adjacent(place.0, place.1, nodes[a].x, nodes[a].y)
            &&& manhattan(place.0, place.1, nodes[u].x, nodes[u].y) + 1 == gap(nodes, a, u)
            &&& !occupied(nodes, place.0, place.1)
        }),
{
    let place = bridge_place(nodes[a].x, nodes[a].y, nodes[u].x, nodes[u].y);
    assert(a != u);
    assert(gap(nodes, a, u) >= 1) by {
        if a < u {
            assert(!(nodes[a].x == nodes[u].x && nodes[a].y == nodes[u].y));
        } else {
            assert(!(nodes[u].x == nodes[a].x && nodes[u].y == nodes[a].y));
        }
    }
    assert forall|c: int| 0 <= c < nodes.len() implies !((#[trigger] nodes[c]).x == place.0
        && nodes[c].y == place.1) by {
        if nodes[c].x == place.0 && nodes[c].y == place.1 {
            assert(linked(nodes, a, c));
            lemma_joined_step(nodes, a, c);
            if c != u {
                assert(gap(nodes, c, u) + 1 == gap(nodes, a, u));
            }
        }
    }
}

} // verus!
