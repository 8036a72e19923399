use crate::numeric::{scaled, sqrt_floor, MAX_DIMENSION, SCALE, WEIGHT_LIMIT};
use vstd::prelude::*;

verus! {

/// Represents an input for the network.
pub trait Input: View {
    /// The weight vector of an input with the given view.
    spec fn weights_of(view: Self::V) -> Seq<i64>;

    /// Returns the weights.
    fn weights(&self) -> (weights: &Vec<i64>)
        ensures
            weights@ == Self::weights_of(self@),
    ;
}

/// Represents the input data storage of a node.
pub trait Storage: View + Sized {
    /// An input type.
    type Item: Input;

    /// The storage is in a state that its operations keep.
    spec fn wf(&self) -> bool;

    /// The storage after `input` was added to it.
    spec fn added(before: Self::V, input: <Self::Item as View>::V) -> Self::V;

    /// The inputs that the storage holds, in the order in which `drain` returns them.
    spec fn contents(view: Self::V) -> Seq<<Self::Item as View>::V>;

    /// The storage without its inputs.
    spec fn emptied(view: Self::V) -> Self::V;

    /// An emptied storage holds nothing, and a storage holds after an addition only what it
    /// held before or what was added.
    proof fn lemma_contents(view: Self::V, input: <Self::Item as View>::V)
        ensures
            Self::contents(Self::emptied(view)).len() == 0,
            forall|i: int|
                0 <= i < Self::contents(Self::added(view, input)).len() ==> {
                    let held = #[trigger] Self::contents(Self::added(view, input))[i];
                    held == input || Self::contents(view).contains(held)
                },
    ;

    /// Adds an input to the storage.
    fn add(&mut self, input: Self::Item)
        requires
            old(self).wf(),
        ensures
            final(self).wf(),
            final(self)@ == Self::added(old(self)@, input@),
    ;

    /// Empties the storage and returns what it held.
    fn drain(&mut self) -> (items: Vec<Self::Item>)
        requires
            old(self).wf(),
        ensures
            final(self).wf(),
            final(self)@ == Self::emptied(old(self)@),
            items@.len() == Self::contents(old(self)@).len(),
            forall|i: int|
                0 <= i < items@.len() ==> (#[trigger] items@[i])@ == Self::contents(old(self)@)[i],
    ;

    /// An empty storage of the same kind.
    fn fresh(&self) -> (storage: Self)
        requires
            self.wf(),
        ensures
            storage.wf(),
            storage@ == Self::emptied(self@),
    ;

    /// Number of inputs that the storage holds.
    fn size(&self) -> (size: usize)
        requires
            self.wf(),
        ensures
            size == Self::contents(self@).len(),
    ;
}

/// The largest number of hits that a node counts.
pub const HIT_LIMIT: usize = usize::MAX;

/// The largest error that a node accumulates.
pub const ERROR_LIMIT: u64 = u64::MAX;

/// A node of the map, with what its storage holds seen as `SV`.
pub struct NodeView<SV> {
    /// The place of the node on the grid.
    pub x: int,
    pub y: int,
    /// The weight vector.
    pub weights: Seq<i64>,
    /// How often the node was the best matching unit.
    pub hits: nat,
    /// The error accumulated since the last growth or distribution.
    pub error: nat,
    /// The time of the last hit.
    pub last_hit: nat,
    /// The storage.
    pub storage: SV,
}

/// The map: its nodes in the order of their creation, and its parameters.
pub struct NetworkView<SV> {
    pub nodes: Seq<NodeView<SV>>,
    /// Number of components of each weight vector.
    pub dimension: nat,
    /// The error above which a node grows or distributes.
    pub growth_threshold: nat,
    pub reduction_factor: int,
    pub distribution_factor: int,
    pub learning_rate: int,
    pub hit_memory: nat,
    /// The time of the latest input.
    pub time: nat,
}

/// The vector has `dimension` components, each within the range of weights.
pub open spec fn valid_weights(weights: Seq<i64>, dimension: nat) -> bool {
    &&& weights.len() == dimension
    &&& forall|i: int|
        0 <= i < weights.len() ==> -WEIGHT_LIMIT <= #[trigger] weights[i] <= WEIGHT_LIMIT
}

/// The position lies on the grid.
pub open spec fn in_grid(x: int, y: int) -> bool {
    i32::MIN <= x <= i32::MAX && i32::MIN <= y <= i32::MAX
}

/// Some node stands at the position.
pub open spec fn occupied<SV>(nodes: Seq<NodeView<SV>>, x: int, y: int) -> bool {
    exists|i: int| 0 <= i < nodes.len() && (#[trigger] nodes[i]).x == x && nodes[i].y == y
}

/// The index of the node at the position.
pub open spec fn index_at<SV>(nodes: Seq<NodeView<SV>>, x: int, y: int) -> int {
    choose|i: int| 0 <= i < nodes.len() && (#[trigger] nodes[i]).x == x && nodes[i].y == y
}

/// No two nodes stand at one position.
pub open spec fn distinct_positions<SV>(nodes: Seq<NodeView<SV>>) -> bool {
    forall|i: int, j: int|
        0 <= i < j < nodes.len() ==> !((#[trigger] nodes[i]).x == (#[trigger] nodes[j]).x
            && nodes[i].y == nodes[j].y)
}

/// The two positions are neighbours on the grid: one step apart along one axis.
pub open spec fn adjacent(ax: int, ay: int, bx: int, by: int) -> bool {
    ||| (ax == bx && (ay == by + 1 || ay == by - 1))
    ||| (ay == by && (ax == bx + 1 || ax == bx - 1))
}

/// The sum of the squared differences of the first `n` components.
pub open spec fn square_sum(a: Seq<i64>, b: Seq<i64>, n: int) -> nat
    decreases n,
{
    if n <= 0 {
        0
    } else {
        square_sum(a, b, n - 1) + ((a[n - 1] - b[n - 1]) * (a[n - 1] - b[n - 1])) as nat
    }
}

/// The square of the Euclidean distance of two vectors.
pub open spec fn squared_distance(a: Seq<i64>, b: Seq<i64>) -> nat {
    square_sum(a, b, a.len() as int)
}

/// The Euclidean distance of two vectors, rounded down.
pub open spec fn distance(a: Seq<i64>, b: Seq<i64>) -> nat {
    sqrt_floor(squared_distance(a, b))
}

/// Node `i` matches the input `weights` better than node `j`: it is nearer, or as near
/// and earlier in the order of positions, first by `x`, then by `y`.
pub open spec fn matches_better<SV>(
    nodes: Seq<NodeView<SV>>,
    weights: Seq<i64>,
    i: int,
    j: int,
) -> bool {
    let di = squared_distance(nodes[i].weights, weights);
    let dj = squared_distance(nodes[j].weights, weights);
    di < dj || (di == dj && (nodes[i].x < nodes[j].x || (nodes[i].x == nodes[j].x && nodes[i].y
        < nodes[j].y)))
}

/// The best matching unit among the first `n` nodes.
pub open spec fn best_upto<SV>(nodes: Seq<NodeView<SV>>, weights: Seq<i64>, n: int) -> int
    decreases n,
{
    if n <= 1 {
        0
    } else {
        let best = best_upto(nodes, weights, n - 1);
        if matches_better(nodes, weights, n - 1, best) {
            n - 1
        } else {
            best
        }
    }
}

/// The index of the best matching unit of the input `weights`.
pub open spec fn bmu<SV>(nodes: Seq<NodeView<SV>>, weights: Seq<i64>) -> int {
    best_upto(nodes, weights, nodes.len() as int)
}

/// One component moved towards its target by the part `rate` of the way.
pub open spec fn moved_component(weight: i64, target: i64, rate: int) -> i64 {
    (weight + scaled(rate, target - weight)) as i64
}

/// The weights moved towards the target by the part `rate` of the way, each component
/// for itself.
pub open spec fn moved(weights: Seq<i64>, target: Seq<i64>, rate: int) -> Seq<i64> {
    Seq::new(weights.len(), |i: int| moved_component(weights[i], target[i], rate))
}

/// The rate at which the neighbours of the best matching unit learn.
pub open spec fn neighbour_rate<SV>(net: NetworkView<SV>) -> int {
    scaled(net.learning_rate, net.distribution_factor)
}

/// The sum, held at `limit`.
pub open spec fn saturating(value: nat, increase: nat, limit: nat) -> nat {
    if value + increase > limit {
        limit
    } else {
        value + increase
    }
}

/// The nodes after the best matching unit `b` and its neighbours have learned from the
/// input `weights`.
pub open spec fn learned<SV>(net: NetworkView<SV>, b: int, weights: Seq<i64>) -> Seq<NodeView<SV>> {
    Seq::new(
        net.nodes.len(),
        |i: int|
            {
                let node = net.nodes[i];
                let rate = if i == b {
                    net.learning_rate
                } else if adjacent(node.x, node.y, net.nodes[b].x, net.nodes[b].y) {
                    neighbour_rate(net)
                } else {
                    0
                };
                NodeView {
                    x: node.x,
                    y: node.y,
                    weights: if rate == 0 {
                        node.weights
                    } else {
                        moved(node.weights, weights, rate)
                    },
                    hits: node.hits,
                    error: node.error,
                    last_hit: node.last_hit,
                    storage: node.storage,
                }
            },
    )
}

/// The node after a hit at `time` by an input at distance `miss`, with its new storage.
pub open spec fn hit<SV>(node: NodeView<SV>, miss: nat, time: nat, storage: SV) -> NodeView<SV> {
    NodeView {
        x: node.x,
        y: node.y,
        weights: node.weights,
        hits: saturating(node.hits, 1, HIT_LIMIT as nat),
        error: saturating(node.error, miss, ERROR_LIMIT as nat),
        last_hit: time,
        storage,
    }
}

/// The step to the neighbour in direction `d`: left, right, down, up.
pub open spec fn step(d: int) -> (int, int) {
    if d == 0 {
        (-1, 0)
    } else if d == 1 {
        (1, 0)
    } else if d == 2 {
        (0, -1)
    } else {
        (0, 1)
    }
}

/// The neighbour position of node `b` in direction `d` lies on the grid and is free.
pub open spec fn missing<SV>(nodes: Seq<NodeView<SV>>, b: int, d: int) -> bool {
    let x = nodes[b].x + step(d).0;
    let y = nodes[b].y + step(d).1;
    in_grid(x, y) && !occupied(nodes, x, y)
}

/// Node `b` has a free neighbour position.
pub open spec fn any_missing<SV>(nodes: Seq<NodeView<SV>>, b: int) -> bool {
    missing(nodes, b, 0) || missing(nodes, b, 1) || missing(nodes, b, 2) || missing(nodes, b, 3)
}

/// The value, held within the range of weights.
pub open spec fn clamped(value: int) -> i64 {
    if value > WEIGHT_LIMIT {
        WEIGHT_LIMIT
    } else if value < -WEIGHT_LIMIT {
        (-WEIGHT_LIMIT) as i64
    } else {
        value as i64
    }
}

/// The weights of a node that grows out of node `b` in direction `d`: those of `b`,
/// carried on beyond `b` from the neighbour on the opposite side if there is one.
pub open spec fn extrapolated<SV>(nodes: Seq<NodeView<SV>>, b: int, d: int) -> Seq<i64> {
    let x = nodes[b].x - step(d).0;
    let y = nodes[b].y - step(d).1;
    if occupied(nodes, x, y) {
        let opposite = nodes[index_at(nodes, x, y)].weights;
        Seq::new(nodes[b].weights.len(), |i: int| clamped(2 * nodes[b].weights[i] - opposite[i]))
    } else {
        nodes[b].weights
    }
}

/// The node that grows out of node `b` in direction `d` at `time`, with an empty storage.
pub open spec fn sprout<SV>(nodes: Seq<NodeView<SV>>, b: int, d: int, time: nat, storage: SV) -> NodeView<SV> {
    NodeView {
        x: nodes[b].x + step(d).0,
        y: nodes[b].y + step(d).1,
        weights: extrapolated(nodes, b, d),
        hits: 0,
        error: 0,
        last_hit: time,
        storage,
    }
}

/// The node with its error set to `error`.
pub open spec fn with_error<SV>(node: NodeView<SV>, error: nat) -> NodeView<SV> {
    NodeView {
        x: node.x,
        y: node.y,
        weights: node.weights,
        hits: node.hits,
        error,
        last_hit: node.last_hit,
        storage: node.storage,
    }
}

/// The nodes after node `b` has grown into its free neighbour positions in the
/// directions before `d`: the error of `b` is zero and the new nodes follow the old.
pub open spec fn grown<SV>(nodes: Seq<NodeView<SV>>, b: int, d: int, time: nat, storage: SV) -> Seq<NodeView<SV>>
    decreases d,
{
    if d <= 0 {
        nodes.update(b, with_error(nodes[b], 0))
    } else {
        let before = grown(nodes, b, d - 1, time, storage);
        if missing(nodes, b, d - 1) {
            before.push(sprout(nodes, b, d - 1, time, storage))
        } else {
            before
        }
    }
}

/// Number of neighbours of node `b` among the nodes.
pub open spec fn neighbour_count<SV>(nodes: Seq<NodeView<SV>>, b: int, n: int) -> nat
    decreases n,
{
    if n <= 0 {
        0
    } else {
        neighbour_count(nodes, b, n - 1) + if adjacent(
            nodes[n - 1].x,
            nodes[n - 1].y,
            nodes[b].x,
            nodes[b].y,
        ) {
            1nat
        } else {
            0nat
        }
    }
}

/// The part of the error of node `b` that each of its neighbours takes over.
pub open spec fn share<SV>(net: NetworkView<SV>, nodes: Seq<NodeView<SV>>, b: int) -> nat {
    let count = neighbour_count(nodes, b, nodes.len() as int);
    if count == 0 {
        0
    } else {
        (scaled(net.reduction_factor, nodes[b].error as int) / (count as int)) as nat
    }
}

/// The nodes after node `b` has distributed its error: each neighbour takes over a share
/// and the error of `b` is zero.
pub open spec fn distributed<SV>(net: NetworkView<SV>, nodes: Seq<NodeView<SV>>, b: int) -> Seq<NodeView<SV>> {
    Seq::new(
        nodes.len(),
        |i: int|
            if i == b {
                with_error(nodes[i], 0)
            } else if adjacent(nodes[i].x, nodes[i].y, nodes[b].x, nodes[b].y) {
                with_error(
                    nodes[i],
                    saturating(nodes[i].error, share(net, nodes, b), ERROR_LIMIT as nat),
                )
            } else {
                nodes[i]
            },
    )
}

/// The nodes after the input was stored but before the growth check: the best matching
/// unit and its neighbours have learned, and the unit has taken the hit.
pub open spec fn absorbed<SV>(
    net: NetworkView<SV>,
    weights: Seq<i64>,
    time: nat,
    storage: SV,
) -> Seq<NodeView<SV>> {
    let b = bmu(net.nodes, weights);
    let miss = distance(net.nodes[b].weights, weights);
    let after = learned(net, b, weights);
    after.update(b, hit(after[b], miss, time, storage))
}

/// The network after an input with `weights` was stored at `time`, where `storage` is
/// the storage of the best matching unit with the input added and `empty` that storage
/// without inputs.
pub open spec fn stored<SV>(
    net: NetworkView<SV>,
    weights: Seq<i64>,
    time: nat,
    storage: SV,
    empty: SV,
) -> NetworkView<SV> {
    let b = bmu(net.nodes, weights);
    let nodes = absorbed(net, weights, time, storage);
    NetworkView {
        nodes: if nodes[b].error > net.growth_threshold {
            if any_missing(nodes, b) {
                grown(nodes, b, 4, time, empty)
            } else {
                distributed(net, nodes, b)
            }
        } else {
            nodes
        },
        dimension: net.dimension,
        growth_threshold: net.growth_threshold,
        reduction_factor: net.reduction_factor,
        distribution_factor: net.distribution_factor,
        learning_rate: net.learning_rate,
        hit_memory: net.hit_memory,
        time,
    }
}

/// The parameters are in their ranges and the nodes are well placed: at least one node,
/// no two at one position, each on the grid and with valid weights.
pub open spec fn well_formed<SV>(net: NetworkView<SV>) -> bool {
    &&& 0 < net.dimension <= MAX_DIMENSION
    &&& 0 < net.reduction_factor < SCALE
    &&& 0 < net.distribution_factor < SCALE
    &&& 0 < net.learning_rate < SCALE
    &&& 0 < net.hit_memory
    &&& net.growth_threshold <= ERROR_LIMIT
    &&& net.nodes.len() > 0
    &&& distinct_positions(net.nodes)
    &&& forall|i: int|
        0 <= i < net.nodes.len() ==> {
            let node = #[trigger] net.nodes[i];
            &&& in_grid(node.x, node.y)
            &&& valid_weights(node.weights, net.dimension)
            &&& node.hits <= HIT_LIMIT
            &&& node.error <= ERROR_LIMIT
        }
}

/// The smallest `x` among the first `n` nodes.
pub open spec fn min_x<SV>(nodes: Seq<NodeView<SV>>, n: int) -> int
    decreases n,
{
    if n <= 1 {
        nodes[0].x
    } else if nodes[n - 1].x < min_x(nodes, n - 1) {
        nodes[n - 1].x
    } else {
        min_x(nodes, n - 1)
    }
}

/// The largest `x` among the first `n` nodes.
pub open spec fn max_x<SV>(nodes: Seq<NodeView<SV>>, n: int) -> int
    decreases n,
{
    if n <= 1 {
        nodes[0].x
    } else if nodes[n - 1].x > max_x(nodes, n - 1) {
        nodes[n - 1].x
    } else {
        max_x(nodes, n - 1)
    }
}

/// The smallest `y` among the first `n` nodes.
pub open spec fn min_y<SV>(nodes: Seq<NodeView<SV>>, n: int) -> int
    decreases n,
{
    if n <= 1 {
        nodes[0].y
    } else if nodes[n - 1].y < min_y(nodes, n - 1) {
        nodes[n - 1].y
    } else {
        min_y(nodes, n - 1)
    }
}

/// The largest `y` among the first `n` nodes.
pub open spec fn max_y<SV>(nodes: Seq<NodeView<SV>>, n: int) -> int
    decreases n,
{
    if n <= 1 {
        nodes[0].y
    } else if nodes[n - 1].y > max_y(nodes, n - 1) {
        nodes[n - 1].y
    } else {
        max_y(nodes, n - 1)
    }
}

/// Node `k` stands on a corner of the bounding box of the nodes.
pub open spec fn is_corner<SV>(nodes: Seq<NodeView<SV>>, k: int) -> bool {
    let n = nodes.len() as int;
    &&& (nodes[k].x == min_x(nodes, n) || nodes[k].x == max_x(nodes, n))
    &&& (nodes[k].y == min_y(nodes, n) || nodes[k].y == max_y(nodes, n))
}

/// Node `k` is to stay: the filter keeps it (`verdicts[k]`) or it stands on a corner.
pub open spec fn wanted<SV>(nodes: Seq<NodeView<SV>>, verdicts: Seq<bool>, k: int) -> bool {
    verdicts[k] || is_corner(nodes, k)
}

/// One of the first `n` nodes is to stay.
pub open spec fn any_wanted<SV>(nodes: Seq<NodeView<SV>>, verdicts: Seq<bool>, n: int) -> bool
    decreases n,
{
    if n <= 0 {
        false
    } else {
        any_wanted(nodes, verdicts, n - 1) || wanted(nodes, verdicts, n - 1)
    }
}

/// Node `k` survives the compaction: it is to stay, or it is the first node and no node
/// is to stay, so that the map keeps a node.
pub open spec fn retained<SV>(nodes: Seq<NodeView<SV>>, verdicts: Seq<bool>, k: int) -> bool {
    wanted(nodes, verdicts, k) || (k == 0 && !any_wanted(nodes, verdicts, nodes.len() as int))
}

/// The survivors among the first `n` nodes, in their order.
pub open spec fn survivors<SV>(nodes: Seq<NodeView<SV>>, verdicts: Seq<bool>, n: int) -> Seq<
    NodeView<SV>,
>
    decreases n,
{
    if n <= 0 {
        Seq::empty()
    } else if retained(nodes, verdicts, n - 1) {
        survivors(nodes, verdicts, n - 1).push(nodes[n - 1])
    } else {
        survivors(nodes, verdicts, n - 1)
    }
}

/// What the storages of the removed nodes among the first `n` held, node after node.
pub open spec fn orphans<S: Storage>(
    nodes: Seq<NodeView<S::V>>,
    verdicts: Seq<bool>,
    n: int,
) -> Seq<<S::Item as View>::V>
    decreases n,
{
    if n <= 0 {
        Seq::empty()
    } else if retained(nodes, verdicts, n - 1) {
        orphans::<S>(nodes, verdicts, n - 1)
    } else {
        orphans::<S>(nodes, verdicts, n - 1) + S::contents(nodes[n - 1].storage)
    }
}

/// Nodes `j` and `k` are neighbours.
pub open spec fn linked<SV>(nodes: Seq<NodeView<SV>>, j: int, k: int) -> bool {
    adjacent(nodes[j].x, nodes[j].y, nodes[k].x, nodes[k].y)
}

/// Node `k` can be reached from the first node in at most `steps` steps from neighbour to
/// neighbour.
pub open spec fn reaches<SV>(nodes: Seq<NodeView<SV>>, k: int, steps: nat) -> bool
    decreases steps,
{
    if steps == 0 {
        k == 0
    } else {
        let fewer = (steps - 1) as nat;
        reaches(nodes, k, fewer) || exists|j: int|
            0 <= j < nodes.len() && #[trigger] linked(nodes, j, k) && reaches(nodes, j, fewer)
    }
}

/// Node `k` is joined to the first node by a chain of neighbours.
pub open spec fn joined<SV>(nodes: Seq<NodeView<SV>>, k: int) -> bool {
    exists|steps: nat| #[trigger] reaches(nodes, k, steps)
}

/// Every node is joined to the first: the nodes form one connected graph of neighbours.
pub open spec fn connected<SV>(nodes: Seq<NodeView<SV>>) -> bool {
    forall|k: int| 0 <= k < nodes.len() ==> #[trigger] joined(nodes, k)
}

/// The number of steps between two positions.
pub open spec fn manhattan(ax: int, ay: int, bx: int, by: int) -> int {
    (if ax >= bx { ax - bx } else { bx - ax }) + (if ay >= by { ay - by } else { by - ay })
}

/// The number of steps between nodes `i` and `j`.
pub open spec fn gap<SV>(nodes: Seq<NodeView<SV>>, i: int, j: int) -> int {
    manhattan(nodes[i].x, nodes[i].y, nodes[j].x, nodes[j].y)
}

/// The weight at the first of `steps` equal steps from `from` to `to`.
pub open spec fn first_step(from: i64, to: i64, steps: int) -> i64 {
    if to >= from {
        (from + (to - from) / steps) as i64
    } else {
        (from - (from - to) / steps) as i64
    }
}

/// The weights at the first of `steps` equal steps from `from` to `to`: the linear
/// interpolation of the two vectors at the place of a bridging node.
pub open spec fn interpolated(from: Seq<i64>, to: Seq<i64>, steps: int) -> Seq<i64> {
    Seq::new(from.len(), |i: int| first_step(from[i], to[i], steps))
}

/// Nodes `a` and `u` are the nearest pair of a node joined to the first node and a node
/// that is not; where several pairs are as near, the first in the order of the nodes,
/// by `a` and then by `u`.
pub open spec fn is_nearest_gap<SV>(nodes: Seq<NodeView<SV>>, a: int, u: int) -> bool {
    &&& 0 <= a < nodes.len() && 0 <= u < nodes.len()
    &&& joined(nodes, a) && !joined(nodes, u)
    &&& forall|i: int, j: int|
        0 <= i < nodes.len() && 0 <= j < nodes.len() && joined(nodes, i) && !joined(nodes, j)
            ==> gap(nodes, a, u) < #[trigger] gap(nodes, i, j) || (gap(nodes, a, u) == gap(
            nodes,
            i,
            j,
        ) && (a < i || (a == i && u <= j)))
}

/// The position next to `(ax, ay)` that is one step nearer to `(ux, uy)`; the step goes
/// along `x` where the two differ in `x`.
pub open spec fn bridge_place(ax: int, ay: int, ux: int, uy: int) -> (int, int) {
    if ux > ax {
        (ax + 1, ay)
    } else if ux < ax {
        (ax - 1, ay)
    } else if uy > ay {
        (ax, ay + 1)
    } else {
        (ax, ay - 1)
    }
}

/// Node `k` bridges a gap: where `a` and `u` are the nearest pair of a joined and an
/// unjoined node among the nodes before it, node `k` stands next to `a` one step nearer
/// to `u`, with the weights interpolated between the two, no hits, no error and the
/// storage of `a` without inputs.
pub open spec fn is_bridge<S: Storage>(nodes: Seq<NodeView<S::V>>, k: int, time: nat) -> bool {
    let earlier = nodes.take(k);
    let node = nodes[k];
    exists|a: int, u: int|
        {
            &&& #[trigger] is_nearest_gap(earlier, a, u)
            &&& (node.x, node.y) == bridge_place(
                earlier[a].x,
                earlier[a].y,
                earlier[u].x,
                earlier[u].y,
            )
            &&& node.weights == interpolated(
                earlier[a].weights,
                earlier[u].weights,
                gap(earlier, a, u),
            )
            &&& node.hits == 0 && node.error == 0 && node.last_hit == time
            &&& node.storage == S::emptied(earlier[a].storage)
        }
}

/// `after` is `before` healed with at most `budget` bridging nodes: the nodes of
/// `before` come first and are unchanged, each further node bridges a gap, and the nodes
/// are connected unless the budget is used up.
pub open spec fn healed<S: Storage>(
    before: Seq<NodeView<S::V>>,
    after: Seq<NodeView<S::V>>,
    budget: nat,
    time: nat,
) -> bool {
    &&& before.len() <= after.len() <= before.len() + budget
    &&& after.take(before.len() as int) == before
    &&& forall|k: int| before.len() <= k < after.len() ==> #[trigger] is_bridge::<S>(after, k, time)
    &&& connected(after) || after.len() == before.len() + budget
}

} // verus!
