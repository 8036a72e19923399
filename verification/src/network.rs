use crate::gsom::{
    absorbed, adjacent, any_missing, any_wanted, best_upto, bmu, clamped, connected,
    distinct_positions, distributed, extrapolated, first_step, gap, grown, healed, hit, in_grid,
    index_at, interpolated, is_bridge, is_nearest_gap, joined, learned, linked, max_x, max_y, min_x,
    min_y, missing, moved, moved_component, neighbour_count, neighbour_rate, occupied, orphans,
    reaches, retained, share, sprout, square_sum, squared_distance, step, stored, survivors,
    valid_weights, wanted, well_formed, with_error, Input, NetworkView, NodeView, Storage,
    ERROR_LIMIT, HIT_LIMIT,
};
use crate::numeric::{
    isqrt, lemma_scaled_bounds, scale, MAX_DIMENSION, ROOT_LIMIT, SCALE, WEIGHT_LIMIT,
};
use vstd::prelude::*;

verus! {

/// A node of the map.
pub struct Node<S: Storage> {
    pub x: i32,
    pub y: i32,
    pub weights: Vec<i64>,
    pub hits: usize,
    pub error: u64,
    pub last_hit: usize,
    pub storage: S,
}

impl<S: Storage> View for Node<S> {
    type V = NodeView<S::V>;

    open spec fn view(&self) -> NodeView<S::V> {
        NodeView {
            x: self.x as int,
            y: self.y as int,
            weights: self.weights@,
            hits: self.hits as nat,
            error: self.error as nat,
            last_hit: self.last_hit as nat,
            storage: self.storage@,
        }
    }
}

/// Decides which nodes a compaction of the map keeps.
pub trait NodeFilter<S: Storage> {
    /// The filter keeps the node.
    spec fn keeps(&self, node: NodeView<S::V>) -> bool;

    /// Says whether the filter keeps the node.
    fn retain(&self, node: &Node<S>) -> (keep: bool)
        requires
            node.storage.wf(),
        ensures
            keep == self.keeps(node@),
    ;
}

/// What the filter says of each node.
pub open spec fn verdicts_of<S: Storage, F: NodeFilter<S>>(
    filter: &F,
    nodes: Seq<NodeView<S::V>>,
) -> Seq<bool> {
    Seq::new(nodes.len(), |k: int| filter.keeps(nodes[k]))
}

/// The views of the inputs, in their order.
pub open spec fn input_views<S: Storage>(items: Seq<S::Item>) -> Seq<<S::Item as View>::V> {
    Seq::new(items.len(), |i: int| items[i]@)
}

/// Some node is to stay exactly when one of the nodes is.
pub proof fn lemma_any_wanted<SV>(nodes: Seq<NodeView<SV>>, verdicts: Seq<bool>, n: int)
    ensures
        any_wanted(nodes, verdicts, n) <==> exists|k: int|
            0 <= k < n && #[trigger] wanted(nodes, verdicts, k),
    decreases n,
{
    if n > 0 {
        lemma_any_wanted(nodes, verdicts, n - 1);
        if any_wanted(nodes, verdicts, n) {
            if wanted(nodes, verdicts, n - 1) {
                assert(0 <= n - 1 < n && wanted(nodes, verdicts, n - 1));
            } else {
                let k = choose|k: int| 0 <= k < n - 1 && #[trigger] wanted(nodes, verdicts, k);
                assert(0 <= k < n && wanted(nodes, verdicts, k));
            }
        }
        if exists|k: int| 0 <= k < n && #[trigger] wanted(nodes, verdicts, k) {
            let k = choose|k: int| 0 <= k < n && #[trigger] wanted(nodes, verdicts, k);
            if k < n - 1 {
                assert(0 <= k < n - 1 && wanted(nodes, verdicts, k));
            }
        }
    }
}

/// The best matching unit among the first `n` nodes is one of them.
pub proof fn lemma_best_upto_range<SV>(nodes: Seq<NodeView<SV>>, weights: Seq<i64>, n: int)
    requires
        nodes.len() > 0,
        n <= nodes.len(),
    ensures
        0 <= best_upto(nodes, weights, n) < nodes.len(),
        n >= 1 ==> best_upto(nodes, weights, n) < n,
    decreases n,
{
    if n > 1 {
        lemma_best_upto_range(nodes, weights, n - 1);
    }
}

/// Growth keeps the old nodes where they are, with their storages, and gives each new
/// node the empty storage.
pub proof fn lemma_grown_nodes<SV>(
    nodes: Seq<NodeView<SV>>,
    b: int,
    d: int,
    time: nat,
    empty: SV,
)
    requires
        0 <= b < nodes.len(),
    ensures
        ({
            let after = grown(nodes, b, d, time, empty);
            &&& after.len() >= nodes.len()
            &&& forall|k: int|
                0 <= k < nodes.len() ==> (#[trigger] after[k]).storage == nodes[k].storage
                    && after[k].x == nodes[k].x && after[k].y == nodes[k].y && after[k].weights
                    == nodes[k].weights
            &&& forall|k: int| nodes.len() <= k < after.len() ==> (#[trigger] after[k]).storage == empty
        }),
    decreases d,
{
    if d > 0 {
        lemma_grown_nodes(nodes, b, d - 1, time, empty);
    }
}

/// Storing an input keeps the old nodes where they are; the best matching unit gets the
/// new storage, the other old nodes keep theirs, and each new node has the empty one.
pub proof fn lemma_stored_nodes<SV>(
    net: NetworkView<SV>,
    weights: Seq<i64>,
    time: nat,
    storage: SV,
    empty: SV,
)
    requires
        net.nodes.len() > 0,
    ensures
        ({
            let after = stored(net, weights, time, storage, empty);
            let b = bmu(net.nodes, weights);
            &&& 0 <= b < net.nodes.len()
            &&& after.nodes.len() >= net.nodes.len()
            &&& forall|k: int|
                0 <= k < net.nodes.len() ==> (#[trigger] after.nodes[k]).x == net.nodes[k].x
                    && after.nodes[k].y == net.nodes[k].y && after.nodes[k].storage == if k == b {
                    storage
                } else {
                    net.nodes[k].storage
                }
            &&& forall|k: int|
                net.nodes.len() <= k < after.nodes.len() ==> (#[trigger] after.nodes[k]).storage
                    == empty
        }),
{
    lemma_best_upto_range(net.nodes, weights, net.nodes.len() as int);
    let b = bmu(net.nodes, weights);
    let nodes = absorbed(net, weights, time, storage);
    lemma_grown_nodes(nodes, b, 4, time, empty);
}

/// How many of the first `n` marks are set.
pub open spec fn count_set(marks: Seq<bool>, n: int) -> nat
    decreases n,
{
    if n <= 0 {
        0
    } else {
        count_set(marks, n - 1) + if marks[n - 1] {
            1nat
        } else {
            0nat
        }
    }
}

/// No more marks are set than there are.
pub proof fn lemma_count_set_bound(marks: Seq<bool>, n: int)
    requires
        0 <= n,
    ensures
        count_set(marks, n) <= n,
    decreases n,
{
    if n > 0 {
        lemma_count_set_bound(marks, n - 1);
    }
}

/// Setting a mark that was not set raises the count by one.
pub proof fn lemma_count_set_update(marks: Seq<bool>, k: int, n: int)
    requires
        0 <= k < marks.len(),
        0 <= n <= marks.len(),
        !marks[k],
    ensures
        count_set(marks.update(k, true), n) == count_set(marks, n) + if k < n {
            1nat
        } else {
            0nat
        },
    decreases n,
{
    if n > 0 {
        lemma_count_set_update(marks, k, n - 1);
    }
}

/// The marks are closed: the first node is marked, and so is every neighbour of a marked
/// node.
pub open spec fn closed_marks<SV>(nodes: Seq<NodeView<SV>>, marks: Seq<bool>) -> bool {
    &&& marks.len() == nodes.len()
    &&& nodes.len() > 0 ==> marks[0]
    &&& forall|j: int, k: int|
        0 <= j < nodes.len() && 0 <= k < nodes.len() && #[trigger] marks[j] && adjacent(
            nodes[j].x,
            nodes[j].y,
            nodes[k].x,
            nodes[k].y,
        ) ==> #[trigger] marks[k]
}

/// Closed marks mark every node that can be reached from the first.
pub proof fn lemma_closed_marks_complete<SV>(
    nodes: Seq<NodeView<SV>>,
    marks: Seq<bool>,
    k: int,
    steps: nat,
)
    requires
        closed_marks(nodes, marks),
        0 <= k < nodes.len(),
        reaches(nodes, k, steps),
    ensures
        marks[k],
    decreases steps,
{
    if steps > 0 {
        let fewer = (steps - 1) as nat;
        if reaches(nodes, k, fewer) {
            lemma_closed_marks_complete(nodes, marks, k, fewer);
        } else {
            let j = choose|j: int|
                0 <= j < nodes.len() && #[trigger] linked(nodes, j, k) && reaches(nodes, j, fewer);
            lemma_closed_marks_complete(nodes, marks, j, fewer);
        }
    }
}

/// A neighbour of a joined node is joined.
pub proof fn lemma_joined_step<SV>(nodes: Seq<NodeView<SV>>, j: int, k: int)
    requires
        0 <= j < nodes.len(),
        0 <= k < nodes.len(),
        joined(nodes, j),
        adjacent(nodes[j].x, nodes[j].y, nodes[k].x, nodes[k].y),
    ensures
        joined(nodes, k),
{
    let steps = choose|steps: nat| #[trigger] reaches(nodes, j, steps);
    let more = steps + 1;
    assert((more - 1) as nat == steps);
    assert(linked(nodes, j, k));
    assert(reaches(nodes, k, more));
}

/// The views of the nodes, in their order.
pub open spec fn node_views<S: Storage>(nodes: Seq<Node<S>>) -> Seq<NodeView<S::V>> {
    Seq::new(nodes.len(), |i: int| nodes[i]@)
}

/// Every input that the storage holds has valid weights.
pub open spec fn holds_valid_inputs<S: Storage>(storage: S::V, dimension: nat) -> bool {
    forall|k: int|
        0 <= k < S::contents(storage).len() ==> valid_weights(
            S::Item::weights_of(#[trigger] S::contents(storage)[k]),
            dimension,
        )
}

/// A growing self-organising map.
pub struct Network<S: Storage> {
    nodes: Vec<Node<S>>,
    dimension: usize,
    growth_threshold: u64,
    reduction_factor: i64,
    distribution_factor: i64,
    learning_rate: i64,
    hit_memory: usize,
    time: usize,
}

impl<S: Storage> View for Network<S> {
    type V = NetworkView<S::V>;

    closed spec fn view(&self) -> NetworkView<S::V> {
        NetworkView {
            nodes: node_views(self.nodes@),
            dimension: self.dimension as nat,
            growth_threshold: self.growth_threshold as nat,
            reduction_factor: self.reduction_factor as int,
            distribution_factor: self.distribution_factor as int,
            learning_rate: self.learning_rate as int,
            hit_memory: self.hit_memory as nat,
            time: self.time as nat,
        }
    }
}

/// The sum of squared differences of two valid vectors has a square root that `isqrt` takes.
pub proof fn lemma_square_sum_bound(a: Seq<i64>, b: Seq<i64>, n: int)
    requires
        0 <= n <= a.len(),
        a.len() == b.len(),
        valid_weights(a, a.len()),
        valid_weights(b, b.len()),
    ensures
        square_sum(a, b, n) <= n * 400_000_000_000_000_000_000_000_000_000_000,
    decreases n,
{
    if n > 0 {
        lemma_square_sum_bound(a, b, n - 1);
        let d = a[n - 1] - b[n - 1];
        assert(-20_000_000_000_000_000 <= d <= 20_000_000_000_000_000);
        assert(0 <= d * d <= 400_000_000_000_000_000_000_000_000_000_000) by (nonlinear_arith)
            requires
                -20_000_000_000_000_000 <= d <= 20_000_000_000_000_000,
        ;
    }
}

/// The square of the Euclidean distance of two vectors.
pub fn squared_distance_of(a: &Vec<i64>, b: &Vec<i64>) -> (sum: u128)
    requires
        a@.len() == b@.len() <= MAX_DIMENSION,
        valid_weights(a@, a@.len()),
        valid_weights(b@, b@.len()),
    ensures
        sum == squared_distance(a@, b@),
        sum < ROOT_LIMIT,
{
    let mut sum: u128 = 0;
    let mut i: usize = 0;
    while i < a.len()
        invariant
            i <= a.len(),
            a@.len() == b@.len() <= MAX_DIMENSION,
            valid_weights(a@, a@.len()),
            valid_weights(b@, b@.len()),
            sum == square_sum(a@, b@, i as int),
        decreases a.len() - i,
    {
        proof {
            lemma_square_sum_bound(a@, b@, i as int);
            lemma_square_sum_bound(a@, b@, i + 1);
        }
        let d: i128 = a[i] as i128 - b[i] as i128;
        assert(0 <= d * d <= 400_000_000_000_000_000_000_000_000_000_000) by (nonlinear_arith)
            requires
                -20_000_000_000_000_000 <= d <= 20_000_000_000_000_000,
        ;
        sum = sum + (d * d) as u128;
        i += 1;
    }
    proof {
        lemma_square_sum_bound(a@, b@, a@.len() as int);
    }
    sum
}

/// The weights moved towards the target by the part `rate` of the way.
pub fn move_weights(weights: &Vec<i64>, target: &Vec<i64>, rate: i64) -> (result: Vec<i64>)
    requires
        weights@.len() == target@.len(),
        valid_weights(weights@, weights@.len()),
        valid_weights(target@, target@.len()),
        0 <= rate <= SCALE,
    ensures
        result@ == moved(weights@, target@, rate as int),
        valid_weights(result@, weights@.len()),
{
    let mut result: Vec<i64> = Vec::new();
    let mut i: usize = 0;
    while i < weights.len()
        invariant
            i <= weights.len(),
            weights@.len() == target@.len(),
            valid_weights(weights@, weights@.len()),
            valid_weights(target@, target@.len()),
            0 <= rate <= SCALE,
            result@.len() == i,
            forall|k: int|
                0 <= k < i ==> #[trigger] result@[k] == moved_component(
                    weights@[k],
                    target@[k],
                    rate as int,
                ) && -WEIGHT_LIMIT <= result@[k] <= WEIGHT_LIMIT,
        decreases weights.len() - i,
    {
        let gap: i128 = target[i] as i128 - weights[i] as i128;
        let change = scale(rate, gap);
        proof {
            lemma_scaled_bounds(rate as int, gap as int);
        }
        let value = (weights[i] as i128 + change) as i64;
        result.push(value);
        i += 1;
    }
    assert(result@ =~= moved(weights@, target@, rate as int));
    result
}

/// A copy of the weights.
pub fn copy_weights(weights: &Vec<i64>) -> (copy: Vec<i64>)
    ensures
        copy@ == weights@,
{
    let mut copy: Vec<i64> = Vec::new();
    let mut i: usize = 0;
    while i < weights.len()
        invariant
            i <= weights.len(),
            copy@ == weights@.take(i as int),
        decreases weights.len() - i,
    {
        copy.push(weights[i]);
        assert(weights@.take(i + 1) == weights@.take(i as int).push(weights@[i as int]));
        i += 1;
    }
    assert(weights@.take(i as int) == weights@);
    copy
}

/// Says whether the weights are valid for a map of the given dimension.
pub fn are_valid_weights(weights: &Vec<i64>, dimension: usize) -> (valid: bool)
    ensures
        valid == valid_weights(weights@, dimension as nat),
{
    if weights.len() != dimension {
        return false;
    }
    let mut i: usize = 0;
    while i < weights.len()
        invariant
            i <= weights.len(),
            forall|k: int| 0 <= k < i ==> -WEIGHT_LIMIT <= #[trigger] weights@[k] <= WEIGHT_LIMIT,
        decreases weights.len() - i,
    {
        if weights[i] < -WEIGHT_LIMIT || weights[i] > WEIGHT_LIMIT {
            return false;
        }
        i += 1;
    }
    true
}

/// The weights carried on from `opposite` beyond `weights`, held within the range of weights.
pub fn extrapolate(weights: &Vec<i64>, opposite: &Vec<i64>) -> (result: Vec<i64>)
    requires
        weights@.len() == opposite@.len(),
        valid_weights(weights@, weights@.len()),
        valid_weights(opposite@, opposite@.len()),
    ensures
        result@ == Seq::new(weights@.len(), |i: int| clamped(2 * weights@[i] - opposite@[i])),
        valid_weights(result@, weights@.len()),
{
    let mut result: Vec<i64> = Vec::new();
    let mut i: usize = 0;
    while i < weights.len()
        invariant
            i <= weights.len(),
            weights@.len() == opposite@.len(),
            valid_weights(weights@, weights@.len()),
            valid_weights(opposite@, opposite@.len()),
            result@.len() == i,
            forall|k: int|
                0 <= k < i ==> #[trigger] result@[k] == clamped(2 * weights@[k] - opposite@[k])
                    && -WEIGHT_LIMIT <= result@[k] <= WEIGHT_LIMIT,
        decreases weights.len() - i,
    {
        let value: i128 = 2 * (weights[i] as i128) - opposite[i] as i128;
        let held = if value > WEIGHT_LIMIT as i128 {
            WEIGHT_LIMIT
        } else if value < -(WEIGHT_LIMIT as i128) {
            -WEIGHT_LIMIT
        } else {
            value as i64
        };
        result.push(held);
        i += 1;
    }
    assert(result@ =~= Seq::new(weights@.len(), |i: int| clamped(2 * weights@[i] - opposite@[i])));
    result
}

/// The step to the neighbour in direction `d`.
fn step_of(d: usize) -> (by: (i64, i64))
    ensures
        by.0 == step(d as int).0,
        by.1 == step(d as int).1,
{
    if d == 0 {
        (-1, 0)
    } else if d == 1 {
        (1, 0)
    } else if d == 2 {
        (0, -1)
    } else {
        (0, 1)
    }
}

/// The position is one that node `b` grows into in a direction before `d`.
pub open spec fn sprout_place<SV>(nodes: Seq<NodeView<SV>>, b: int, d: int, x: int, y: int) -> bool {
    ||| (0 < d && missing(nodes, b, 0) && x == nodes[b].x + step(0).0 && y == nodes[b].y + step(0).1)
    ||| (1 < d && missing(nodes, b, 1) && x == nodes[b].x + step(1).0 && y == nodes[b].y + step(1).1)
    ||| (2 < d && missing(nodes, b, 2) && x == nodes[b].x + step(2).0 && y == nodes[b].y + step(2).1)
    ||| (3 < d && missing(nodes, b, 3) && x == nodes[b].x + step(3).0 && y == nodes[b].y + step(3).1)
}

/// Nodes that stand at the same places occupy the same positions.
pub proof fn lemma_occupied_same_places<SV>(
    a: Seq<NodeView<SV>>,
    b: Seq<NodeView<SV>>,
    x: int,
    y: int,
)
    requires
        a.len() == b.len(),
        forall|k: int| 0 <= k < a.len() ==> (#[trigger] a[k]).x == b[k].x && a[k].y == b[k].y,
    ensures
        occupied(a, x, y) == occupied(b, x, y),
{
    if occupied(a, x, y) {
        let i = choose|i: int| 0 <= i < a.len() && (#[trigger] a[i]).x == x && a[i].y == y;
        assert(b[i].x == x && b[i].y == y);
    }
    if occupied(b, x, y) {
        let i = choose|i: int| 0 <= i < b.len() && (#[trigger] b[i]).x == x && b[i].y == y;
        assert(a[i].x == x && a[i].y == y);
    }
}

impl<S: Storage> Network<S> {
    /// The map is well formed, each storage is in order, and each stored input has valid
    /// weights.
    pub open spec fn wf(&self) -> bool {
        &&& well_formed(self@)
        &&& self.storages_wf()
        &&& forall|i: int|
            0 <= i < self@.nodes.len() ==> holds_valid_inputs::<S>(
                (#[trigger] self@.nodes[i]).storage,
                self@.dimension,
            )
    }

    /// Each storage is in a state that its operations keep.
    pub closed spec fn storages_wf(&self) -> bool {
        forall|i: int| 0 <= i < self.nodes@.len() ==> (#[trigger] self.nodes@[i]).storage.wf()
    }

    /// What holds of each node of a well formed map.
    proof fn lemma_node(&self, i: int)
        requires
            self.wf(),
            0 <= i < self.nodes@.len(),
        ensures
            self@.nodes[i] == self.nodes@[i]@,
            self@.nodes.len() == self.nodes@.len(),
            valid_weights(self.nodes@[i].weights@, self.dimension as nat),
            0 < self.dimension <= MAX_DIMENSION,
            self.nodes@[i].storage.wf(),
            holds_valid_inputs::<S>(self.nodes@[i].storage@, self.dimension as nat),
    {
        assert(self@.nodes[i] == self.nodes@[i]@);
    }

    /// Returns the nodes, in the order of their creation.
    pub fn get_nodes(&self) -> (nodes: &Vec<Node<S>>)
        ensures
            node_views(nodes@) == self@.nodes,
            self.wf() ==> forall|i: int| 0 <= i < nodes@.len() ==> (#[trigger] nodes@[i]).storage.wf(),
    {
        &self.nodes
    }

    /// Number of nodes.
    pub fn size(&self) -> (size: usize)
        ensures
            size == self@.nodes.len(),
    {
        self.nodes.len()
    }

    /// Looks among the first `n` nodes for the one at the position.
    fn find_node(&self, x: i64, y: i64, n: usize) -> (found: Option<usize>)
        requires
            n <= self.nodes@.len(),
        ensures
            match found {
                Some(i) => i < n && self@.nodes[i as int].x == x && self@.nodes[i as int].y == y,
                None => !occupied(self@.nodes.take(n as int), x as int, y as int),
            },
    {
        let mut i: usize = 0;
        while i < n
            invariant
                i <= n <= self.nodes@.len(),
                forall|k: int|
                    0 <= k < i ==> !((#[trigger] self@.nodes[k]).x == x && self@.nodes[k].y == y),
            decreases n - i,
        {
            if self.nodes[i].x as i64 == x && self.nodes[i].y as i64 == y {
                return Some(i);
            }
            i += 1;
        }
        proof {
            let front = self@.nodes.take(n as int);
            assert forall|k: int| 0 <= k < front.len() implies !((#[trigger] front[k]).x == x
                && front[k].y == y) by {
                assert(front[k] == self@.nodes[k]);
            }
        }
        None
    }

    /// Finds the best matching unit of the input and the square of its distance.
    fn find_bmu(&self, weights: &Vec<i64>) -> (found: (usize, u128))
        requires
            self.wf(),
            valid_weights(weights@, self@.dimension),
        ensures
            found.0 == bmu(self@.nodes, weights@),
            found.0 < self@.nodes.len(),
            found.1 == squared_distance(self@.nodes[found.0 as int].weights, weights@),
            found.1 < ROOT_LIMIT,
    {
        let mut best: usize = 0;
        proof {
            self.lemma_node(0);
        }
        let mut nearest = squared_distance_of(&self.nodes[0].weights, weights);
        let mut i: usize = 1;
        while i < self.nodes.len()
            invariant
                1 <= i <= self.nodes@.len(),
                self.wf(),
                valid_weights(weights@, self@.dimension),
                best == best_upto(self@.nodes, weights@, i as int),
                best < i,
                nearest == squared_distance(self@.nodes[best as int].weights, weights@),
                nearest < ROOT_LIMIT,
            decreases self.nodes.len() - i,
        {
            let node = &self.nodes[i];
            let other = &self.nodes[best];
            proof {
                self.lemma_node(i as int);
                self.lemma_node(best as int);
            }
            let d = squared_distance_of(&node.weights, weights);
            if d < nearest || (d == nearest && (node.x < other.x || (node.x == other.x && node.y
                < other.y))) {
                best = i;
                nearest = d;
            }
            i += 1;
        }
        (best, nearest)
    }

    /// The map with other nodes.
    pub open spec fn with_nodes(net: NetworkView<S::V>, nodes: Seq<NodeView<S::V>>) -> NetworkView<
        S::V,
    > {
        NetworkView {
            nodes,
            dimension: net.dimension,
            growth_threshold: net.growth_threshold,
            reduction_factor: net.reduction_factor,
            distribution_factor: net.distribution_factor,
            learning_rate: net.learning_rate,
            hit_memory: net.hit_memory,
            time: net.time,
        }
    }

    /// Lets the best matching unit `b` and its neighbours learn from the input.
    fn learn(&mut self, b: usize, weights: &Vec<i64>)
        requires
            old(self).wf(),
            b < old(self)@.nodes.len(),
            valid_weights(weights@, old(self)@.dimension),
        ensures
            final(self).wf(),
            final(self)@ == Self::with_nodes(old(self)@, learned(old(self)@, b as int, weights@)),
    {
        proof {
            lemma_scaled_bounds(self.learning_rate as int, self.distribution_factor as int);
        }
        let near_rate = scale(self.learning_rate, self.distribution_factor as i128) as i64;
        let ghost before = self@;
        proof {
            self.lemma_node(b as int);
        }
        let bx = self.nodes[b].x as i64;
        let by = self.nodes[b].y as i64;
        let mut i: usize = 0;
        while i < self.nodes.len()
            invariant
                i <= self.nodes@.len(),
                self.wf(),
                before == old(self)@,
                self@.nodes.len() == before.nodes.len(),
                Self::with_nodes(self@, before.nodes) == before,
                b < before.nodes.len(),
                bx == before.nodes[b as int].x,
                by == before.nodes[b as int].y,
                near_rate == neighbour_rate(before),
                0 <= near_rate <= SCALE,
                valid_weights(weights@, before.dimension),
                forall|k: int| 0 <= k < i ==> self@.nodes[k] == learned(before, b as int, weights@)[k],
                forall|k: int| i <= k < self@.nodes.len() ==> self@.nodes[k] == before.nodes[k],
            decreases self.nodes.len() - i,
        {
            proof {
                self.lemma_node(i as int);
            }
            let ghost prev = self@;
            let x = self.nodes[i].x as i64;
            let y = self.nodes[i].y as i64;
            let rate = if i == b {
                self.learning_rate
            } else if (x == bx && (y == by + 1 || y == by - 1)) || (y == by && (x == bx + 1 || x
                == bx - 1)) {
                near_rate
            } else {
                0
            };
            if rate != 0 {
                let ghost earlier = self.nodes@;
                let changed = move_weights(&self.nodes[i].weights, weights, rate);
                self.nodes[i].weights = changed;
                proof {
                    assert forall|k: int| 0 <= k < self.nodes@.len() && k != i implies self.nodes@[k]
                        == earlier[k] by {}
                    assert(self.storages_wf());
                    assert forall|k: int| 0 <= k < self@.nodes.len() implies {
                        let node = #[trigger] self@.nodes[k];
                        &&& in_grid(node.x, node.y)
                        &&& valid_weights(node.weights, self@.dimension)
                        &&& node.hits <= HIT_LIMIT
                        &&& node.error <= ERROR_LIMIT
                        &&& holds_valid_inputs::<S>(node.storage, self@.dimension)
                    } by {
                        if k != i {
                            assert(self@.nodes[k] == earlier[k]@);
                            assert(node_views(earlier)[k] == earlier[k]@);
                        }
                    }
                    assert(distinct_positions(self@.nodes)) by {
                        assert forall|p: int, q: int| 0 <= p < q < self@.nodes.len() implies !((
                        #[trigger] self@.nodes[p]).x == (#[trigger] self@.nodes[q]).x
                            && self@.nodes[p].y == self@.nodes[q].y) by {
                            assert(node_views(earlier)[p].x == self@.nodes[p].x);
                            assert(node_views(earlier)[q].x == self@.nodes[q].x);
                            assert(node_views(earlier)[p].y == self@.nodes[p].y);
                            assert(node_views(earlier)[q].y == self@.nodes[q].y);
                        }
                    }
                }
            }
            proof {
                let target = learned(before, b as int, weights@);
                assert forall|k: int| 0 <= k < i + 1 implies self@.nodes[k] == target[k] by {
                    if k < i {
                        assert(self@.nodes[k] == prev.nodes[k]);
                    } else {
                        assert(prev.nodes[k] == before.nodes[k]);
                        assert(self@.nodes[k].weights == target[k].weights);
                    }
                }
                assert forall|k: int| i + 1 <= k < self@.nodes.len() implies self@.nodes[k]
                    == before.nodes[k] by {
                    assert(self@.nodes[k] == prev.nodes[k]);
                }
            }
            i += 1;
        }
        assert(self@.nodes =~= learned(before, b as int, weights@));
    }

    /// The nodes stand where `nodes` stand, and the parameters are those of `net`.
    pub open spec fn same_places(self, net: NetworkView<S::V>) -> bool {
        &&& Self::with_nodes(self@, net.nodes) == net
        &&& self@.nodes.len() == net.nodes.len()
        &&& forall|k: int|
            0 <= k < net.nodes.len() ==> (#[trigger] self@.nodes[k]).x == net.nodes[k].x
                && self@.nodes[k].y == net.nodes[k].y
    }

    /// The map stays well formed when its nodes keep their places and all else that the
    /// well-formedness asks of a node holds of each node again.
    proof fn lemma_wf_kept(&self, net: NetworkView<S::V>)
        requires
            well_formed(net),
            self@.dimension == net.dimension,
            self@.growth_threshold == net.growth_threshold,
            self@.reduction_factor == net.reduction_factor,
            self@.distribution_factor == net.distribution_factor,
            self@.learning_rate == net.learning_rate,
            self@.hit_memory == net.hit_memory,
            self@.nodes.len() == net.nodes.len(),
            forall|k: int|
                0 <= k < net.nodes.len() ==> {
                    let node = #[trigger] self@.nodes[k];
                    &&& node.x == net.nodes[k].x
                    &&& node.y == net.nodes[k].y
                    &&& valid_weights(node.weights, net.dimension)
                    &&& node.hits <= HIT_LIMIT
                    &&& node.error <= ERROR_LIMIT
                    &&& holds_valid_inputs::<S>(node.storage, net.dimension)
                },
            self.storages_wf(),
        ensures
            self.wf(),
    {
        assert(distinct_positions(self@.nodes)) by {
            assert forall|p: int, q: int| 0 <= p < q < self@.nodes.len() implies !((
            #[trigger] self@.nodes[p]).x == (#[trigger] self@.nodes[q]).x && self@.nodes[p].y
                == self@.nodes[q].y) by {
                assert(net.nodes[p].x == self@.nodes[p].x);
                assert(net.nodes[q].x == self@.nodes[q].x);
            }
        }
        assert forall|k: int| 0 <= k < self@.nodes.len() implies {
            let node = #[trigger] self@.nodes[k];
            in_grid(node.x, node.y)
        } by {
            assert(in_grid(net.nodes[k].x, net.nodes[k].y));
        }
    }

    /// Lets node `b` take the hit of an input at distance `miss`: the input goes to its
    /// storage, the distance to its error, and the time is noted.
    fn take_hit(&mut self, b: usize, input: S::Item, miss: u64, time: usize)
        requires
            old(self).wf(),
            b < old(self)@.nodes.len(),
            valid_weights(S::Item::weights_of(input@), old(self)@.dimension),
        ensures
            final(self).wf(),
            final(self)@ == (NetworkView {
                nodes: old(self)@.nodes.update(
                    b as int,
                    hit(
                        old(self)@.nodes[b as int],
                        miss as nat,
                        time as nat,
                        S::added(old(self)@.nodes[b as int].storage, input@),
                    ),
                ),
                dimension: old(self)@.dimension,
                growth_threshold: old(self)@.growth_threshold,
                reduction_factor: old(self)@.reduction_factor,
                distribution_factor: old(self)@.distribution_factor,
                learning_rate: old(self)@.learning_rate,
                hit_memory: old(self)@.hit_memory,
                time: time as nat,
            }),
    {
        let ghost before = self@;
        let ghost earlier = self.nodes@;
        proof {
            self.lemma_node(b as int);
            S::lemma_contents(before.nodes[b as int].storage, input@);
        }
        let ghost given = input@;
        self.nodes[b].storage.add(input);
        let error = self.nodes[b].error;
        self.nodes[b].error = if error > ERROR_LIMIT - miss {
            ERROR_LIMIT
        } else {
            error + miss
        };
        let hits = self.nodes[b].hits;
        self.nodes[b].hits = if hits == HIT_LIMIT {
            HIT_LIMIT
        } else {
            hits + 1
        };
        self.nodes[b].last_hit = time;
        self.time = time;
        proof {
            let after = S::added(before.nodes[b as int].storage, given);
            assert forall|k: int| 0 <= k < self.nodes@.len() && k != b implies self.nodes@[k]
                == earlier[k] by {}
            assert(holds_valid_inputs::<S>(after, before.dimension)) by {
                assert forall|k: int| 0 <= k < S::contents(after).len() implies valid_weights(
                    S::Item::weights_of(#[trigger] S::contents(after)[k]),
                    before.dimension,
                ) by {
                    let held = S::contents(after)[k];
                    if held != given {
                        assert(S::contents(before.nodes[b as int].storage).contains(held));
                        let j = choose|j: int|
                            0 <= j < S::contents(before.nodes[b as int].storage).len()
                                && S::contents(before.nodes[b as int].storage)[j] == held;
                        assert(valid_weights(
                            S::Item::weights_of(S::contents(before.nodes[b as int].storage)[j]),
                            before.dimension,
                        ));
                    }
                }
            }
            assert forall|k: int| 0 <= k < before.nodes.len() implies {
                let node = #[trigger] self@.nodes[k];
                &&& node.x == before.nodes[k].x
                &&& node.y == before.nodes[k].y
                &&& valid_weights(node.weights, before.dimension)
                &&& node.hits <= HIT_LIMIT
                &&& node.error <= ERROR_LIMIT
                &&& holds_valid_inputs::<S>(node.storage, before.dimension)
            } by {
                assert(before.nodes[k] == earlier[k]@);
            }
            self.lemma_wf_kept(before);
            assert(self@.nodes =~= before.nodes.update(
                b as int,
                hit(before.nodes[b as int], miss as nat, time as nat, after),
            )) by {
                assert forall|k: int| 0 <= k < before.nodes.len() && k != b implies self@.nodes[k]
                    == before.nodes[k] by {
                    assert(before.nodes[k] == earlier[k]@);
                }
            }
        }
    }

    /// Counts the neighbours of node `b`.
    fn count_neighbours(&self, b: usize) -> (count: usize)
        requires
            self.wf(),
            b < self@.nodes.len(),
        ensures
            count == neighbour_count(self@.nodes, b as int, self@.nodes.len() as int),
    {
        let bx = self.nodes[b].x as i64;
        let by = self.nodes[b].y as i64;
        proof {
            self.lemma_node(b as int);
        }
        let mut count: usize = 0;
        let mut i: usize = 0;
        while i < self.nodes.len()
            invariant
                i <= self.nodes@.len(),
                self.wf(),
                b < self@.nodes.len(),
                bx == self@.nodes[b as int].x,
                by == self@.nodes[b as int].y,
                count == neighbour_count(self@.nodes, b as int, i as int),
                count <= i,
            decreases self.nodes.len() - i,
        {
            proof {
                self.lemma_node(i as int);
            }
            let x = self.nodes[i].x as i64;
            let y = self.nodes[i].y as i64;
            if (x == bx && (y == by + 1 || y == by - 1)) || (y == by && (x == bx + 1 || x == bx
                - 1)) {
                count += 1;
            }
            i += 1;
        }
        count
    }

    /// Lets node `b` hand a part of its error to its neighbours and sets its error to zero.
    fn distribute(&mut self, b: usize)
        requires
            old(self).wf(),
            b < old(self)@.nodes.len(),
        ensures
            final(self).wf(),
            final(self)@ == Self::with_nodes(
                old(self)@,
                distributed(old(self)@, old(self)@.nodes, b as int),
            ),
    {
        let ghost before = self@;
        proof {
            self.lemma_node(b as int);
            lemma_scaled_bounds(self.reduction_factor as int, self.nodes@[b as int].error as int);
        }
        let count = self.count_neighbours(b);
        let part: u64 = if count == 0 {
            0
        } else {
            (scale(self.reduction_factor, self.nodes[b].error as i128) / (count as i128)) as u64
        };
        assert(part == share(before, before.nodes, b as int));
        let bx = self.nodes[b].x as i64;
        let by = self.nodes[b].y as i64;
        let mut i: usize = 0;
        while i < self.nodes.len()
            invariant
                i <= self.nodes@.len(),
                self.wf(),
                before == old(self)@,
                well_formed(before),
                self.same_places(before),
                b < before.nodes.len(),
                bx == before.nodes[b as int].x,
                by == before.nodes[b as int].y,
                part == share(before, before.nodes, b as int),
                forall|k: int|
                    0 <= k < i ==> self@.nodes[k] == distributed(before, before.nodes, b as int)[k],
                forall|k: int| i <= k < self@.nodes.len() ==> self@.nodes[k] == before.nodes[k],
            decreases self.nodes.len() - i,
        {
            proof {
                self.lemma_node(i as int);
            }
            let ghost prev = self@;
            let ghost earlier = self.nodes@;
            let x = self.nodes[i].x as i64;
            let y = self.nodes[i].y as i64;
            if i == b {
                self.nodes[i].error = 0;
            } else if (x == bx && (y == by + 1 || y == by - 1)) || (y == by && (x == bx + 1 || x
                == bx - 1)) {
                let error = self.nodes[i].error;
                self.nodes[i].error = if error > ERROR_LIMIT - part {
                    ERROR_LIMIT
                } else {
                    error + part
                };
            }
            proof {
                assert forall|k: int| 0 <= k < self.nodes@.len() && k != i implies self.nodes@[k]
                    == earlier[k] by {}
                assert forall|k: int| 0 <= k < before.nodes.len() implies {
                    let node = #[trigger] self@.nodes[k];
                    &&& node.x == before.nodes[k].x
                    &&& node.y == before.nodes[k].y
                    &&& valid_weights(node.weights, before.dimension)
                    &&& node.hits <= HIT_LIMIT
                    &&& node.error <= ERROR_LIMIT
                    &&& holds_valid_inputs::<S>(node.storage, before.dimension)
                } by {
                    assert(prev.nodes[k] == earlier[k]@);
                }
                self.lemma_wf_kept(before);
                let target = distributed(before, before.nodes, b as int);
                assert forall|k: int| 0 <= k < i + 1 implies self@.nodes[k] == target[k] by {
                    assert(prev.nodes[k] == earlier[k]@);
                }
                assert forall|k: int| i + 1 <= k < self@.nodes.len() implies self@.nodes[k]
                    == before.nodes[k] by {
                    assert(prev.nodes[k] == earlier[k]@);
                }
            }
            i += 1;
        }
        assert(self@.nodes =~= distributed(before, before.nodes, b as int));
    }

    /// Says whether the neighbour position of node `b` in direction `d` is on the grid and
    /// free among the first `n` nodes.
    fn is_missing(&self, b: usize, d: usize, n: usize) -> (free: bool)
        requires
            self.wf(),
            b < n <= self@.nodes.len(),
            d < 4,
        ensures
            free == missing(self@.nodes.take(n as int), b as int, d as int),
    {
        proof {
            self.lemma_node(b as int);
            assert(self@.nodes.take(n as int)[b as int] == self@.nodes[b as int]);
        }
        let by = step_of(d);
        let x = self.nodes[b].x as i64 + by.0;
        let y = self.nodes[b].y as i64 + by.1;
        if x < -0x8000_0000 || x > 0x7FFF_FFFF || y < -0x8000_0000 || y > 0x7FFF_FFFF {
            return false;
        }
        match self.find_node(x, y, n) {
            Some(i) => {
                assert(self@.nodes.take(n as int)[i as int] == self@.nodes[i as int]);
                false
            },
            None => true,
        }
    }

    /// Says whether node `b` has a free neighbour position.
    fn has_missing(&self, b: usize) -> (free: bool)
        requires
            self.wf(),
            b < self@.nodes.len(),
        ensures
            free == any_missing(self@.nodes, b as int),
    {
        let n = self.nodes.len();
        assert(self@.nodes.take(n as int) == self@.nodes);
        self.is_missing(b, 0, n) || self.is_missing(b, 1, n) || self.is_missing(b, 2, n)
            || self.is_missing(b, 3, n)
    }

    /// Lets node `b` grow into each of its free neighbour positions and sets its error to
    /// zero.
    fn grow(&mut self, b: usize, time: usize)
        requires
            old(self).wf(),
            b < old(self)@.nodes.len(),
        ensures
            final(self).wf(),
            final(self)@ == Self::with_nodes(
                old(self)@,
                grown(
                    old(self)@.nodes,
                    b as int,
                    4,
                    time as nat,
                    S::emptied(old(self)@.nodes[b as int].storage),
                ),
            ),
    {
        let ghost before = self@;
        let ghost base = before.nodes;
        let ghost empty = S::emptied(base[b as int].storage);
        let ghost earlier = self.nodes@;
        let n = self.nodes.len();
        proof {
            self.lemma_node(b as int);
        }
        let x = self.nodes[b].x as i64;
        let y = self.nodes[b].y as i64;
        self.nodes[b].error = 0;
        proof {
            assert forall|k: int| 0 <= k < self.nodes@.len() && k != b implies self.nodes@[k]
                == earlier[k] by {}
            assert forall|k: int| 0 <= k < before.nodes.len() implies {
                let node = #[trigger] self@.nodes[k];
                &&& node.x == before.nodes[k].x
                &&& node.y == before.nodes[k].y
                &&& valid_weights(node.weights, before.dimension)
                &&& node.hits <= HIT_LIMIT
                &&& node.error <= ERROR_LIMIT
                &&& holds_valid_inputs::<S>(node.storage, before.dimension)
            } by {
                assert(before.nodes[k] == earlier[k]@);
            }
            self.lemma_wf_kept(before);
            assert(self@.nodes =~= base.update(b as int, with_error(base[b as int], 0))) by {
                assert forall|k: int| 0 <= k < base.len() && k != b implies self@.nodes[k]
                    == base[k] by {
                    assert(before.nodes[k] == earlier[k]@);
                }
            }
        }
        let mut d: usize = 0;
        while d < 4
            invariant
                d <= 4,
                self.wf(),
                before == old(self)@,
                base == before.nodes,
                well_formed(before),
                empty == S::emptied(base[b as int].storage),
                b < n == base.len() <= self@.nodes.len(),
                Self::with_nodes(self@, base) == before,
                x == base[b as int].x,
                y == base[b as int].y,
                self@.nodes == grown(base, b as int, d as int, time as nat, empty),
                forall|k: int|
                    0 <= k < n ==> (#[trigger] self@.nodes[k]).x == base[k].x && self@.nodes[k].y
                        == base[k].y && self@.nodes[k].weights == base[k].weights
                        && self@.nodes[k].storage == base[k].storage,
                forall|k: int|
                    n <= k < self@.nodes.len() ==> sprout_place(
                        base,
                        b as int,
                        d as int,
                        (#[trigger] self@.nodes[k]).x,
                        self@.nodes[k].y,
                    ),
            decreases 4 - d,
        {
            let ghost prev = self@;
            let ghost held = self.nodes@;
            proof {
                let front = self@.nodes.take(n as int);
                assert forall|k: int| 0 <= k < front.len() implies (#[trigger] front[k]).x
                    == base[k].x && front[k].y == base[k].y by {
                    assert(front[k] == self@.nodes[k]);
                }
                lemma_occupied_same_places(
                    front,
                    base,
                    x + step(d as int).0,
                    y + step(d as int).1,
                );
                lemma_occupied_same_places(
                    front,
                    base,
                    x - step(d as int).0,
                    y - step(d as int).1,
                );
                assert(front[b as int] == self@.nodes[b as int]);
                self.lemma_node(b as int);
            }
            if self.is_missing(b, d, n) {
                let by = step_of(d);
                let found = self.find_node(x - by.0, y - by.1, n);
                let weights = match found {
                    Some(o) => {
                        proof {
                            self.lemma_node(o as int);
                            let c = index_at(base, x - by.0, y - by.1);
                            assert(base[o as int].x == x - by.0 && base[o as int].y == y - by.1);
                            assert(c == o);
                        }
                        extrapolate(&self.nodes[b].weights, &self.nodes[o].weights)
                    },
                    None => copy_weights(&self.nodes[b].weights),
                };
                assert(weights@ == extrapolated(base, b as int, d as int));
                let storage = self.nodes[b].storage.fresh();
                let node = Node {
                    x: (x + by.0) as i32,
                    y: (y + by.1) as i32,
                    weights,
                    hits: 0,
                    error: 0,
                    last_hit: time,
                    storage,
                };
                proof {
                    assert(node@ == sprout(base, b as int, d as int, time as nat, empty));
                    S::lemma_contents(base[b as int].storage, arbitrary());
                }
                self.nodes.push(node);
                proof {
                    assert(self@.nodes =~= prev.nodes.push(node@));
                    assert forall|k: int| 0 <= k < self.nodes@.len() implies (
                    #[trigger] self.nodes@[k]).storage.wf() by {
                        if k < held.len() {
                            assert(self.nodes@[k] == held[k]);
                        }
                    }
                    assert(distinct_positions(self@.nodes)) by {
                        assert forall|p: int, q: int| 0 <= p < q < self@.nodes.len() implies !((
                        #[trigger] self@.nodes[p]).x == (#[trigger] self@.nodes[q]).x
                            && self@.nodes[p].y == self@.nodes[q].y) by {
                            if q < prev.nodes.len() {
                                assert(self@.nodes[p] == prev.nodes[p]);
                                assert(self@.nodes[q] == prev.nodes[q]);
                            } else {
                                assert(self@.nodes[p] == prev.nodes[p]);
                                if p < n {
                                    assert(base[p].x == prev.nodes[p].x);
                                } else {
                                    assert(sprout_place(
                                        base,
                                        b as int,
                                        d as int,
                                        prev.nodes[p].x,
                                        prev.nodes[p].y,
                                    ));
                                }
                            }
                        }
                    }
                    assert forall|k: int| 0 <= k < self@.nodes.len() implies {
                        let node = #[trigger] self@.nodes[k];
                        &&& in_grid(node.x, node.y)
                        &&& valid_weights(node.weights, self@.dimension)
                        &&& node.hits <= HIT_LIMIT
                        &&& node.error <= ERROR_LIMIT
                        &&& holds_valid_inputs::<S>(node.storage, self@.dimension)
                    } by {
                        if k < prev.nodes.len() {
                            assert(self@.nodes[k] == prev.nodes[k]);
                        }
                    }
                    assert forall|k: int| n <= k < self@.nodes.len() implies sprout_place(
                        base,
                        b as int,
                        d + 1,
                        (#[trigger] self@.nodes[k]).x,
                        self@.nodes[k].y,
                    ) by {
                        if k < prev.nodes.len() {
                            assert(self@.nodes[k] == prev.nodes[k]);
                        } else {
                            assert(missing(base, b as int, d as int));
                        }
                    }
                    assert forall|k: int| 0 <= k < n implies (#[trigger] self@.nodes[k]).x
                        == base[k].x && self@.nodes[k].y == base[k].y && self@.nodes[k].weights
                        == base[k].weights && self@.nodes[k].storage == base[k].storage by {
                        assert(self@.nodes[k] == prev.nodes[k]);
                    }
                }
            }
            d += 1;
        }
    }

    /// The map after `input` was stored at `time`.
    pub open spec fn stored_input(
        net: NetworkView<S::V>,
        input: <S::Item as View>::V,
        time: nat,
    ) -> NetworkView<S::V> {
        let weights = S::Item::weights_of(input);
        let storage = S::added(net.nodes[bmu(net.nodes, weights)].storage, input);
        stored(net, weights, time, storage, S::emptied(storage))
    }

    /// Stores an input at `time`: its best matching unit and the neighbours of the unit
    /// learn from it, the unit keeps it and accumulates its distance, and a unit whose
    /// error has passed the growth threshold grows or hands its error on.
    pub fn store(&mut self, input: S::Item, time: usize)
        requires
            old(self).wf(),
            valid_weights(S::Item::weights_of(input@), old(self)@.dimension),
        ensures
            final(self).wf(),
            final(self)@ == Self::stored_input(old(self)@, input@, time as nat),
    {
        let ghost before = self@;
        let weights = copy_weights(input.weights());
        let (b, nearest) = self.find_bmu(&weights);
        let miss = isqrt(nearest) as u64;
        self.learn(b, &weights);
        self.take_hit(b, input, miss, time);
        let ghost nodes = self@.nodes;
        proof {
            self.lemma_node(b as int);
            assert(nodes =~= absorbed(
                before,
                weights@,
                time as nat,
                S::added(before.nodes[b as int].storage, input@),
            ));
        }
        if self.nodes[b].error > self.growth_threshold {
            let ghost current = self@;
            if self.has_missing(b) {
                self.grow(b, time);
            } else {
                self.distribute(b);
                proof {
                    assert(distributed(current, nodes, b as int) =~= distributed(
                        before,
                        nodes,
                        b as int,
                    ));
                }
            }
        }
    }

    /// The node that the input at place `index` of the seeds makes: the seeds stand at
    /// `(0,0)`, `(0,1)`, `(1,0)` and `(1,1)`, each with the weights of its input and with
    /// the input in its storage.
    pub open spec fn seed_node(input: <S::Item as View>::V, index: int, empty: S::V) -> NodeView<
        S::V,
    > {
        NodeView {
            x: index / 2,
            y: index % 2,
            weights: S::Item::weights_of(input),
            hits: 0,
            error: 0,
            last_hit: 0,
            storage: S::added(empty, input),
        }
    }

    /// Makes the node of the seed at place `index`.
    fn make_seed(input: S::Item, index: usize, storage: &S, dimension: usize) -> (node: Node<S>)
        requires
            index < 4,
            storage.wf(),
            valid_weights(S::Item::weights_of(input@), dimension as nat),
        ensures
            node@ == Self::seed_node(input@, index as int, S::emptied(storage@)),
            node.storage.wf(),
            holds_valid_inputs::<S>(node@.storage, dimension as nat),
    {
        let weights = copy_weights(input.weights());
        let mut own = storage.fresh();
        proof {
            S::lemma_contents(storage@, input@);
            S::lemma_contents(S::emptied(storage@), input@);
            let after = S::added(S::emptied(storage@), input@);
            assert forall|k: int| 0 <= k < S::contents(after).len() implies valid_weights(
                S::Item::weights_of(#[trigger] S::contents(after)[k]),
                dimension as nat,
            ) by {
                let held = S::contents(after)[k];
                if held != input@ {
                    assert(S::contents(S::emptied(storage@)).contains(held));
                }
            }
        }
        own.add(input);
        Node {
            x: (index / 2) as i32,
            y: (index % 2) as i32,
            weights,
            hits: 0,
            error: 0,
            last_hit: 0,
            storage: own,
        }
    }

    /// Creates a map of four nodes from four inputs; `storage` is the pattern after which
    /// the storage of each node is made.
    pub fn new(
        inputs: Vec<S::Item>,
        growth_threshold: u64,
        reduction_factor: i64,
        distribution_factor: i64,
        learning_rate: i64,
        hit_memory: usize,
        storage: S,
    ) -> (network: Self)
        requires
            inputs@.len() == 4,
            0 < reduction_factor < SCALE,
            0 < distribution_factor < SCALE,
            0 < learning_rate < SCALE,
            0 < hit_memory,
            storage.wf(),
            0 < S::Item::weights_of(inputs@[0]@).len() <= MAX_DIMENSION,
            forall|i: int|
                0 <= i < 4 ==> valid_weights(
                    S::Item::weights_of(#[trigger] inputs@[i]@),
                    S::Item::weights_of(inputs@[0]@).len(),
                ),
        ensures
            network.wf(),
            network@ == (NetworkView {
                nodes: Seq::new(
                    4,
                    |i: int| Self::seed_node(inputs@[i]@, i, S::emptied(storage@)),
                ),
                dimension: S::Item::weights_of(inputs@[0]@).len(),
                growth_threshold: growth_threshold as nat,
                reduction_factor: reduction_factor as int,
                distribution_factor: distribution_factor as int,
                learning_rate: learning_rate as int,
                hit_memory: hit_memory as nat,
                time: 0,
            }),
    {
        let mut inputs = inputs;
        let ghost given = inputs@;
        let fourth = inputs.pop().unwrap();
        let third = inputs.pop().unwrap();
        let second = inputs.pop().unwrap();
        let first = inputs.pop().unwrap();
        assert(first == given[0] && second == given[1] && third == given[2] && fourth == given[3]);
        let dimension = first.weights().len();
        let mut nodes: Vec<Node<S>> = Vec::new();
        nodes.push(Self::make_seed(first, 0, &storage, dimension));
        nodes.push(Self::make_seed(second, 1, &storage, dimension));
        nodes.push(Self::make_seed(third, 2, &storage, dimension));
        nodes.push(Self::make_seed(fourth, 3, &storage, dimension));
        let network = Network {
            nodes,
            dimension,
            growth_threshold,
            reduction_factor,
            distribution_factor,
            learning_rate,
            hit_memory,
            time: 0,
        };
        proof {
            assert(network@.nodes =~= Seq::new(
                4,
                |i: int| Self::seed_node(given[i]@, i, S::emptied(storage@)),
            ));
            assert(network@.nodes[0].x == 0 && network@.nodes[0].y == 0);
            assert(network@.nodes[1].x == 0 && network@.nodes[1].y == 1);
            assert(network@.nodes[2].x == 1 && network@.nodes[2].y == 0);
            assert(network@.nodes[3].x == 1 && network@.nodes[3].y == 1);
        }
        network
    }

    /// Finds the bounding box of the nodes: the smallest and largest `x`, then `y`.
    fn bounding_box(&self) -> (bounds: (i32, i32, i32, i32))
        requires
            self.wf(),
        ensures
            bounds.0 == min_x(self@.nodes, self@.nodes.len() as int),
            bounds.1 == max_x(self@.nodes, self@.nodes.len() as int),
            bounds.2 == min_y(self@.nodes, self@.nodes.len() as int),
            bounds.3 == max_y(self@.nodes, self@.nodes.len() as int),
    {
        proof {
            self.lemma_node(0);
        }
        let mut low_x = self.nodes[0].x;
        let mut high_x = self.nodes[0].x;
        let mut low_y = self.nodes[0].y;
        let mut high_y = self.nodes[0].y;
        let mut i: usize = 1;
        while i < self.nodes.len()
            invariant
                1 <= i <= self.nodes@.len(),
                self.wf(),
                low_x == min_x(self@.nodes, i as int),
                high_x == max_x(self@.nodes, i as int),
                low_y == min_y(self@.nodes, i as int),
                high_y == max_y(self@.nodes, i as int),
            decreases self.nodes.len() - i,
        {
            proof {
                self.lemma_node(i as int);
            }
            let node = &self.nodes[i];
            if node.x < low_x {
                low_x = node.x;
            }
            if node.x > high_x {
                high_x = node.x;
            }
            if node.y < low_y {
                low_y = node.y;
            }
            if node.y > high_y {
                high_y = node.y;
            }
            i += 1;
        }
        (low_x, high_x, low_y, high_y)
    }

    /// Says of each node whether it survives a compaction with the filter.
    fn mark_retained<F: NodeFilter<S>>(&self, filter: &F) -> (flags: Vec<bool>)
        requires
            self.wf(),
        ensures
            flags@.len() == self@.nodes.len(),
            forall|k: int|
                0 <= k < flags@.len() ==> #[trigger] flags@[k] == retained(
                    self@.nodes,
                    verdicts_of::<S, F>(filter, self@.nodes),
                    k,
                ),
    {
        let ghost nodes = self@.nodes;
        let ghost verdicts = verdicts_of::<S, F>(filter, nodes);
        let bounds = self.bounding_box();
        let mut flags: Vec<bool> = Vec::new();
        let mut any = false;
        let mut i: usize = 0;
        while i < self.nodes.len()
            invariant
                i <= self.nodes@.len(),
                self.wf(),
                nodes == self@.nodes,
                verdicts == verdicts_of::<S, F>(filter, nodes),
                bounds.0 == min_x(nodes, nodes.len() as int),
                bounds.1 == max_x(nodes, nodes.len() as int),
                bounds.2 == min_y(nodes, nodes.len() as int),
                bounds.3 == max_y(nodes, nodes.len() as int),
                flags@.len() == i,
                any == any_wanted(nodes, verdicts, i as int),
                forall|k: int| 0 <= k < i ==> #[trigger] flags@[k] == wanted(nodes, verdicts, k),
            decreases self.nodes.len() - i,
        {
            proof {
                self.lemma_node(i as int);
            }
            let node = &self.nodes[i];
            let corner = (node.x == bounds.0 || node.x == bounds.1) && (node.y == bounds.2
                || node.y == bounds.3);
            let keep = filter.retain(node) || corner;
            flags.push(keep);
            any = any || keep;
            i += 1;
        }
        if !any {
            flags.set(0, true);
        }
        flags
    }

    /// The map after the inputs were stored one after another at the time of the map.
    pub open spec fn restored(net: NetworkView<S::V>, items: Seq<<S::Item as View>::V>) -> NetworkView<
        S::V,
    >
        decreases items.len(),
    {
        if items.len() == 0 {
            net
        } else {
            Self::stored_input(Self::restored(net, items.drop_last()), items.last(), net.time)
        }
    }

    /// Stores the inputs one after another at the time of the map.
    fn restore(&mut self, items: Vec<S::Item>)
        requires
            old(self).wf(),
            forall|i: int|
                0 <= i < items@.len() ==> valid_weights(
                    S::Item::weights_of(#[trigger] input_views::<S>(items@)[i]),
                    old(self)@.dimension,
                ),
        ensures
            final(self).wf(),
            final(self)@ == Self::restored(old(self)@, input_views::<S>(items@)),
    {
        let ghost before = self@;
        let ghost given = input_views::<S>(items@);
        let mut items = items;
        let mut done: usize = 0;
        let time = self.time;
        let total = items.len();
        proof {
            assert(given.take(0) =~= Seq::empty());
        }
        while items.len() > 0
            invariant
                self.wf(),
                total == given.len(),
                before == old(self)@,
                time == before.time,
                self@.time == time,
                self@.dimension == before.dimension,
                done + items@.len() == given.len(),
                input_views::<S>(items@) == given.skip(done as int),
                forall|i: int|
                    0 <= i < given.len() ==> valid_weights(
                        S::Item::weights_of(#[trigger] given[i]),
                        before.dimension,
                    ),
                self@ == Self::restored(before, given.take(done as int)),
            decreases items@.len(),
        {
            let ghost rest = items@;
            let item = items.remove(0);
            proof {
                assert(item@ == input_views::<S>(rest)[0]);
                assert(item@ == given[done as int]);
                assert(given.take(done + 1).drop_last() == given.take(done as int));
                assert(given.take(done + 1).last() == item@);
                assert(input_views::<S>(items@) =~= given.skip(done + 1)) by {
                    assert forall|i: int| 0 <= i < items@.len() implies input_views::<S>(items@)[i]
                        == given.skip(done + 1)[i] by {
                        assert(items@[i] == rest[i + 1]);
                        assert(input_views::<S>(rest)[i + 1] == given.skip(done as int)[i + 1]);
                    }
                }
            }
            self.store(item, time);
            proof {
                Self::lemma_restored_time(before, given.take(done as int));
            }
            done += 1;
        }
        assert(given.take(done as int) == given);
    }

    /// Storing inputs at the time of the map changes neither that time nor the dimension.
    pub proof fn lemma_restored_time(net: NetworkView<S::V>, items: Seq<<S::Item as View>::V>)
        ensures
            Self::restored(net, items).time == net.time,
            Self::restored(net, items).dimension == net.dimension,
        decreases items.len(),
    {
        if items.len() > 0 {
            Self::lemma_restored_time(net, items.drop_last());
        }
    }

    /// Removes the nodes that `flags` does not retain and returns what their storages held.
    fn compact(&mut self, flags: &Vec<bool>, Ghost(verdicts): Ghost<Seq<bool>>) -> (pending: Vec<
        S::Item,
    >)
        requires
            old(self).wf(),
            flags@.len() == old(self)@.nodes.len(),
            forall|k: int|
                0 <= k < flags@.len() ==> #[trigger] flags@[k] == retained(
                    old(self)@.nodes,
                    verdicts,
                    k,
                ),
        ensures
            final(self).wf(),
            final(self)@ == Self::with_nodes(
                old(self)@,
                survivors(old(self)@.nodes, verdicts, old(self)@.nodes.len() as int),
            ),
            input_views::<S>(pending@) == orphans::<S>(
                old(self)@.nodes,
                verdicts,
                old(self)@.nodes.len() as int,
            ),
            forall|i: int|
                0 <= i < pending@.len() ==> valid_weights(
                    S::Item::weights_of(#[trigger] input_views::<S>(pending@)[i]),
                    old(self)@.dimension,
                ),
    {
        let ghost before = self@;
        let ghost base = before.nodes;
        let mut rest: Vec<Node<S>> = Vec::new();
        proof {
            assert forall|i: int| 0 <= i < base.len() implies (#[trigger] self.nodes@[i]).storage.wf()
                && base[i] == self.nodes@[i]@ by {
                self.lemma_node(i);
            }
        }
        std::mem::swap(&mut rest, &mut self.nodes);
        let mut pending: Vec<S::Item> = Vec::new();
        let ghost mut origin: Seq<int> = Seq::empty();
        let mut k: usize = 0;
        let total = flags.len();
        proof {
            assert(node_views(rest@) =~= base.skip(0));
            assert(node_views(self.nodes@) =~= survivors(base, verdicts, 0));
            assert(input_views::<S>(pending@) =~= orphans::<S>(base, verdicts, 0));
        }
        while rest.len() > 0
            invariant
                before == old(self)@,
                base == before.nodes,
                well_formed(before),
                Self::with_nodes(self@, base) == before,
                forall|i: int|
                    0 <= i < base.len() ==> holds_valid_inputs::<S>(
                        (#[trigger] base[i]).storage,
                        before.dimension,
                    ),
                total == flags@.len() == base.len(),
                forall|j: int|
                    0 <= j < flags@.len() ==> #[trigger] flags@[j] == retained(base, verdicts, j),
                k + rest@.len() == base.len(),
                node_views(rest@) == base.skip(k as int),
                forall|i: int| 0 <= i < rest@.len() ==> (#[trigger] rest@[i]).storage.wf(),
                node_views(self.nodes@) == survivors(base, verdicts, k as int),
                forall|i: int| 0 <= i < self.nodes@.len() ==> (#[trigger] self.nodes@[i]).storage.wf(),
                input_views::<S>(pending@) == orphans::<S>(base, verdicts, k as int),
                forall|i: int|
                    0 <= i < pending@.len() ==> valid_weights(
                        S::Item::weights_of(#[trigger] input_views::<S>(pending@)[i]),
                        before.dimension,
                    ),
                origin.len() == self.nodes@.len(),
                forall|i: int|
                    0 <= i < origin.len() ==> 0 <= #[trigger] origin[i] < k && node_views(
                        self.nodes@,
                    )[i] == base[origin[i]],
                forall|i: int, j: int| 0 <= i < j < origin.len() ==> origin[i] < origin[j],
                forall|j: int| 0 <= j < k && retained(base, verdicts, j) ==> self.nodes@.len() > 0,
            decreases rest@.len(),
        {
            let ghost left = rest@;
            let ghost kept = self.nodes@;
            let ghost waiting = pending@;
            let mut node = rest.remove(0);
            proof {
                assert(node@ == node_views(left)[0]);
                assert(node@ == base[k as int]);
                assert(node_views(rest@) =~= base.skip(k + 1)) by {
                    assert forall|i: int| 0 <= i < rest@.len() implies node_views(rest@)[i]
                        == base.skip(k + 1)[i] by {
                        assert(rest@[i] == left[i + 1]);
                        assert(node_views(left)[i + 1] == base.skip(k as int)[i + 1]);
                    }
                }
                assert forall|i: int| 0 <= i < rest@.len() implies (#[trigger] rest@[i]).storage.wf() by {
                    assert(rest@[i] == left[i + 1]);
                }
                assert(left[0].storage.wf());
            }
            if flags[k] {
                self.nodes.push(node);
                proof {
                    assert(node_views(self.nodes@) =~= node_views(kept).push(base[k as int]));
                    assert forall|i: int| 0 <= i < self.nodes@.len() implies (
                    #[trigger] self.nodes@[i]).storage.wf() by {
                        if i < kept.len() {
                            assert(self.nodes@[i] == kept[i]);
                        }
                    }
                    let grown = origin.push(k as int);
                    assert forall|i: int| 0 <= i < grown.len() implies 0 <= #[trigger] grown[i] < k
                        + 1 && node_views(self.nodes@)[i] == base[grown[i]] by {
                        if i < origin.len() {
                            assert(grown[i] == origin[i]);
                            assert(node_views(kept)[i] == base[origin[i]]);
                        }
                    }
                    assert forall|i: int, j: int| 0 <= i < j < grown.len() implies grown[i]
                        < grown[j] by {
                        assert(grown[i] == origin[i]);
                        if j < origin.len() {
                            assert(grown[j] == origin[j]);
                        }
                    }
                    origin = grown;
                }
            } else {
                let mut items = node.storage.drain();
                proof {
                    assert(input_views::<S>(items@) =~= S::contents(base[k as int].storage));
                    assert forall|i: int| 0 <= i < items@.len() implies valid_weights(
                        S::Item::weights_of(#[trigger] input_views::<S>(items@)[i]),
                        before.dimension,
                    ) by {
                        assert(holds_valid_inputs::<S>(base[k as int].storage, before.dimension));
                        assert(input_views::<S>(items@)[i] == S::contents(base[k as int].storage)[i]);
                    }
                }
                let ghost drained = items@;
                pending.append(&mut items);
                proof {
                    assert(input_views::<S>(pending@) =~= input_views::<S>(waiting) + input_views::<
                        S,
                    >(drained));
                    assert forall|i: int| 0 <= i < pending@.len() implies valid_weights(
                        S::Item::weights_of(#[trigger] input_views::<S>(pending@)[i]),
                        before.dimension,
                    ) by {
                        if i < waiting.len() {
                            assert(input_views::<S>(pending@)[i] == input_views::<S>(waiting)[i]);
                        } else {
                            assert(input_views::<S>(pending@)[i] == input_views::<S>(drained)[i
                                - waiting.len()]);
                        }
                    }
                    assert forall|i: int| 0 <= i < origin.len() implies 0 <= #[trigger] origin[i]
                        < k + 1 && node_views(self.nodes@)[i] == base[origin[i]] by {}
                }
            }
            k += 1;
        }
        proof {
            let n = base.len() as int;
            lemma_any_wanted(base, verdicts, n);
            if any_wanted(base, verdicts, n) {
                let j = choose|j: int| 0 <= j < n && #[trigger] wanted(base, verdicts, j);
                assert(retained(base, verdicts, j));
            } else {
                assert(retained(base, verdicts, 0));
            }
            assert(self@.nodes.len() > 0);
            assert(distinct_positions(self@.nodes)) by {
                assert forall|p: int, q: int| 0 <= p < q < self@.nodes.len() implies !((
                #[trigger] self@.nodes[p]).x == (#[trigger] self@.nodes[q]).x && self@.nodes[p].y
                    == self@.nodes[q].y) by {
                    assert(origin[p] < origin[q]);
                    assert(self@.nodes[p] == base[origin[p]]);
                    assert(self@.nodes[q] == base[origin[q]]);
                }
            }
            assert forall|i: int| 0 <= i < self@.nodes.len() implies {
                let node = #[trigger] self@.nodes[i];
                &&& in_grid(node.x, node.y)
                &&& valid_weights(node.weights, self@.dimension)
                &&& node.hits <= HIT_LIMIT
                &&& node.error <= ERROR_LIMIT
                &&& holds_valid_inputs::<S>(node.storage, self@.dimension)
            } by {
                assert(self@.nodes[i] == base[origin[i]]);
            }
        }
        pending
    }

    /// Says whether node `k` has a marked neighbour.
    fn next_to_marked(&self, k: usize, marks: &Vec<bool>) -> (found: bool)
        requires
            self.wf(),
            k < self@.nodes.len(),
            marks@.len() == self@.nodes.len(),
        ensures
            found == exists|j: int|
                0 <= j < self@.nodes.len() && #[trigger] marks@[j] && adjacent(
                    self@.nodes[j].x,
                    self@.nodes[j].y,
                    self@.nodes[k as int].x,
                    self@.nodes[k as int].y,
                ),
    {
        proof {
            self.lemma_node(k as int);
        }
        let x = self.nodes[k].x as i64;
        let y = self.nodes[k].y as i64;
        let mut j: usize = 0;
        while j < self.nodes.len()
            invariant
                j <= self.nodes@.len(),
                self.wf(),
                k < self@.nodes.len(),
                marks@.len() == self@.nodes.len(),
                x == self@.nodes[k as int].x,
                y == self@.nodes[k as int].y,
                forall|i: int|
                    0 <= i < j ==> !(#[trigger] marks@[i] && adjacent(
                        self@.nodes[i].x,
                        self@.nodes[i].y,
                        x as int,
                        y as int,
                    )),
            decreases self.nodes.len() - j,
        {
            proof {
                self.lemma_node(j as int);
            }
            let ox = self.nodes[j].x as i64;
            let oy = self.nodes[j].y as i64;
            if marks[j] && ((ox == x && (oy == y + 1 || oy == y - 1)) || (oy == y && (ox == x + 1
                || ox == x - 1))) {
                return true;
            }
            j += 1;
        }
        false
    }

    /// Marks the nodes that are joined to the first node by a chain of neighbours.
    fn mark_joined(&self) -> (marks: Vec<bool>)
        requires
            self.wf(),
        ensures
            marks@.len() == self@.nodes.len(),
            forall|k: int| 0 <= k < marks@.len() ==> #[trigger] marks@[k] == joined(self@.nodes, k),
    {
        let n = self.nodes.len();
        let ghost nodes = self@.nodes;
        let mut marks: Vec<bool> = Vec::new();
        let mut i: usize = 0;
        while i < n
            invariant
                i <= n,
                marks@.len() == i,
                forall|k: int| 0 <= k < i ==> !#[trigger] marks@[k],
                count_set(marks@, i as int) == 0,
            decreases n - i,
        {
            let ghost shorter = marks@;
            marks.push(false);
            assert(count_set(marks@, i as int) == 0) by {
                lemma_count_set_prefix(marks@, shorter, i as int);
            }
            i += 1;
        }
        proof {
            lemma_count_set_update(marks@, 0, n as int);
            assert(reaches(nodes, 0, 0));
        }
        marks.set(0, true);
        let mut count: usize = 1;
        let mut changed = true;
        while changed
            invariant
                self.wf(),
                nodes == self@.nodes,
                n == nodes.len(),
                marks@.len() == n,
                marks@[0],
                count == count_set(marks@, n as int),
                forall|k: int| 0 <= k < n && #[trigger] marks@[k] ==> joined(nodes, k),
                !changed ==> closed_marks(nodes, marks@),
            decreases n - count + if changed {
                1int
            } else {
                0int
            },
        {
            proof {
                lemma_count_set_bound(marks@, n as int);
            }
            let ghost start = marks@;
            let ghost start_count = count;
            changed = false;
            let mut k: usize = 0;
            while k < n
                invariant
                    k <= n,
                    self.wf(),
                    nodes == self@.nodes,
                    n == nodes.len(),
                    marks@.len() == n,
                    marks@[0],
                    count == count_set(marks@, n as int),
                    count <= n,
                    forall|i: int| 0 <= i < n && #[trigger] marks@[i] ==> joined(nodes, i),
                    changed ==> count > start_count,
                    !changed ==> marks@ == start && count == start_count,
                    !changed ==> forall|j: int, i: int|
                        0 <= j < n && 0 <= i < k && #[trigger] marks@[j] && adjacent(
                            nodes[j].x,
                            nodes[j].y,
                            nodes[i].x,
                            nodes[i].y,
                        ) ==> #[trigger] marks@[i],
                decreases n - k,
            {
                if !marks[k] {
                    if self.next_to_marked(k, &marks) {
                        proof {
                            let j = choose|j: int|
                                0 <= j < n && #[trigger] marks@[j] && adjacent(
                                    nodes[j].x,
                                    nodes[j].y,
                                    nodes[k as int].x,
                                    nodes[k as int].y,
                                );
                            lemma_joined_step(nodes, j, k as int);
                            lemma_count_set_update(marks@, k as int, n as int);
                            lemma_count_set_bound(marks@.update(k as int, true), n as int);
                        }
                        marks.set(k, true);
                        count += 1;
                        changed = true;
                    }
                }
                k += 1;
            }
        }
        proof {
            assert forall|k: int| 0 <= k < marks@.len() implies #[trigger] marks@[k] == joined(
                nodes,
                k,
            ) by {
                if joined(nodes, k) {
                    let steps = choose|steps: nat| #[trigger] reaches(nodes, k, steps);
                    lemma_closed_marks_complete(nodes, marks@, k, steps);
                }
            }
        }
        marks
    }

    /// The number of steps between nodes `i` and `j`.
    fn gap_between(&self, i: usize, j: usize) -> (steps: i64)
        requires
            self.wf(),
            i < self@.nodes.len(),
            j < self@.nodes.len(),
        ensures
            steps == gap(self@.nodes, i as int, j as int),
            0 <= steps <= 0x2_0000_0000,
    {
        proof {
            self.lemma_node(i as int);
            self.lemma_node(j as int);
        }
        let ax = self.nodes[i].x as i64;
        let ay = self.nodes[i].y as i64;
        let bx = self.nodes[j].x as i64;
        let by = self.nodes[j].y as i64;
        let across = if ax >= bx {
            ax - bx
        } else {
            bx - ax
        };
        let along = if ay >= by {
            ay - by
        } else {
            by - ay
        };
        across + along
    }

    /// Finds the marked and the unmarked node that are nearest to each other, if some
    /// node is unmarked.
    fn closest_gap(&self, marks: &Vec<bool>) -> (found: Option<(usize, usize)>)
        requires
            self.wf(),
            marks@.len() == self@.nodes.len(),
            marks@[0],
        ensures
            match found {
                None => forall|k: int| 0 <= k < marks@.len() ==> #[trigger] marks@[k],
                Some((a, u)) => {
                    &&& a < marks@.len() && u < marks@.len()
                    &&& marks@[a as int] && !marks@[u as int]
                    &&& forall|i: int, j: int|
                        #![trigger marks@[i], marks@[j]]
                        0 <= i < marks@.len() && 0 <= j < marks@.len() && marks@[i] && !marks@[j]
                            ==> first_nearest(self@.nodes, a as int, u as int, i, j)
                },
            },
    {
        let n = self.nodes.len();
        let ghost nodes = self@.nodes;
        let mut best: Option<(usize, usize)> = None;
        let mut nearest: i64 = 0;
        let mut i: usize = 0;
        while i < n
            invariant
                i <= n,
                self.wf(),
                nodes == self@.nodes,
                n == nodes.len(),
                marks@.len() == n,
                match best {
                    None => forall|p: int, q: int|
                        0 <= p < i && 0 <= q < n ==> !(#[trigger] marks@[p] && !#[trigger] marks@[q]),
                    Some((a, u)) => {
                        &&& a < i && u < n
                        &&& marks@[a as int] && !marks@[u as int]
                        &&& nearest == gap(nodes, a as int, u as int)
                        &&& forall|p: int, q: int|
                            #![trigger marks@[p], marks@[q]]
                            0 <= p < i && 0 <= q < n && marks@[p] && !marks@[q] ==> first_nearest(
                                nodes,
                                a as int,
                                u as int,
                                p,
                                q,
                            )
                    },
                },
            decreases n - i,
        {
            if marks[i] {
                let mut j: usize = 0;
                while j < n
                    invariant
                        j <= n,
                        i < n,
                        self.wf(),
                        nodes == self@.nodes,
                        n == nodes.len(),
                        marks@.len() == n,
                        marks@[i as int],
                        match best {
                            None => (forall|p: int, q: int|
                                0 <= p < i && 0 <= q < n ==> !(#[trigger] marks@[p]
                                    && !#[trigger] marks@[q])) && forall|q: int|
                                0 <= q < j ==> #[trigger] marks@[q],
                            Some((a, u)) => {
                                &&& a < i || (a == i && u < j)
                                &&& u < n
                                &&& marks@[a as int] && !marks@[u as int]
                                &&& nearest == gap(nodes, a as int, u as int)
                                &&& forall|p: int, q: int|
                                    #![trigger marks@[p], marks@[q]]
                                    0 <= p < i && 0 <= q < n && marks@[p] && !marks@[q]
                                        ==> first_nearest(nodes, a as int, u as int, p, q)
                                &&& forall|q: int|
                                    0 <= q < j && !#[trigger] marks@[q] ==> first_nearest(
                                        nodes,
                                        a as int,
                                        u as int,
                                        i as int,
                                        q,
                                    )
                            },
                        },
                    decreases n - j,
                {
                    if !marks[j] {
                        let steps = self.gap_between(i, j);
                        if best.is_none() || steps < nearest {
                            best = Some((i, j));
                            nearest = steps;
                        }
                    }
                    j += 1;
                }
            }
            i += 1;
        }
        proof {
            if best.is_none() {
                assert forall|k: int| 0 <= k < marks@.len() implies #[trigger] marks@[k] by {
                    assert(!(marks@[0] && !marks@[k]));
                }
            }
        }
        best
    }

    /// The weights at the first of `steps` equal steps from `from` to `to`.
    fn interpolate(from: &Vec<i64>, to: &Vec<i64>, steps: i64) -> (result: Vec<i64>)
        requires
            from@.len() == to@.len(),
            valid_weights(from@, from@.len()),
            valid_weights(to@, to@.len()),
            steps >= 1,
        ensures
            result@ == interpolated(from@, to@, steps as int),
            valid_weights(result@, from@.len()),
    {
        let mut result: Vec<i64> = Vec::new();
        let mut i: usize = 0;
        while i < from.len()
            invariant
                i <= from.len(),
                from@.len() == to@.len(),
                valid_weights(from@, from@.len()),
                valid_weights(to@, to@.len()),
                steps >= 1,
                result@.len() == i,
                forall|k: int|
                    0 <= k < i ==> #[trigger] result@[k] == first_step(
                        from@[k],
                        to@[k],
                        steps as int,
                    ) && -WEIGHT_LIMIT <= result@[k] <= WEIGHT_LIMIT,
            decreases from.len() - i,
        {
            let a = from[i];
            let b = to[i];
            let value = if b >= a {
                let part = (b as i128 - a as i128) / (steps as i128);
                assert(0 <= part <= b - a) by (nonlinear_arith)
                    requires
                        part == (b - a) / (steps as int),
                        b - a >= 0,
                        steps >= 1,
                ;
                (a as i128 + part) as i64
            } else {
                let part = (a as i128 - b as i128) / (steps as i128);
                assert(0 <= part <= a - b) by (nonlinear_arith)
                    requires
                        part == (a - b) / (steps as int),
                        a - b >= 0,
                        steps >= 1,
                ;
                (a as i128 - part) as i64
            };
            result.push(value);
            i += 1;
        }
        assert(result@ =~= interpolated(from@, to@, steps as int));
        result
    }

    /// Adds a node next to the marked node `a`, one step nearer to the unmarked node `u`.
    fn add_bridge(&mut self, a: usize, u: usize, Ghost(marks): Ghost<Seq<bool>>)
        requires
            old(self).wf(),
            marks.len() == old(self)@.nodes.len(),
            forall|k: int|
                0 <= k < marks.len() ==> #[trigger] marks[k] == joined(old(self)@.nodes, k),
            a < marks.len(),
            u < marks.len(),
            marks[a as int],
            !marks[u as int],
            forall|i: int, j: int|
                #![trigger marks[i], marks[j]]
                0 <= i < marks.len() && 0 <= j < marks.len() && marks[i] && !marks[j]
                    ==> first_nearest(old(self)@.nodes, a as int, u as int, i, j),
        ensures
            final(self).wf(),
            final(self)@.nodes.len() == old(self)@.nodes.len() + 1,
            final(self)@.nodes.take(old(self)@.nodes.len() as int) == old(self)@.nodes,
            Self::with_nodes(final(self)@, old(self)@.nodes) == old(self)@,
            is_bridge::<S>(
                final(self)@.nodes,
                old(self)@.nodes.len() as int,
                old(self)@.time,
            ),
    {
        let ghost before = self@;
        let ghost nodes = before.nodes;
        let ghost held = self.nodes@;
        proof {
            self.lemma_node(a as int);
            self.lemma_node(u as int);
        }
        let steps = self.gap_between(a, u);
        let ax = self.nodes[a].x as i64;
        let ay = self.nodes[a].y as i64;
        let ux = self.nodes[u].x as i64;
        let uy = self.nodes[u].y as i64;
        let (x, y) = if ux > ax {
            (ax + 1, ay)
        } else if ux < ax {
            (ax - 1, ay)
        } else if uy > ay {
            (ax, ay + 1)
        } else {
            (ax, ay - 1)
        };
        proof {
            assert(steps >= 2) by {
                if steps == 0 {
                    assert(nodes[a as int].x == nodes[u as int].x);
                }
                if steps == 1 {
                    assert(linked(nodes, a as int, u as int));
                    lemma_joined_step(nodes, a as int, u as int);
                }
            }
            assert forall|c: int| 0 <= c < nodes.len() implies !((#[trigger] nodes[c]).x == x
                && nodes[c].y == y) by {
                if nodes[c].x == x && nodes[c].y == y {
                    assert(linked(nodes, a as int, c));
                    lemma_joined_step(nodes, a as int, c);
                    assert(marks[c]);
                    assert(first_nearest(nodes, a as int, u as int, c, u as int));
                }
            }
        }
        let weights = Self::interpolate(&self.nodes[a].weights, &self.nodes[u].weights, steps);
        let storage = self.nodes[a].storage.fresh();
        let node = Node {
            x: x as i32,
            y: y as i32,
            weights,
            hits: 0,
            error: 0,
            last_hit: self.time,
            storage,
        };
        proof {
            S::lemma_contents(nodes[a as int].storage, arbitrary());
        }
        let ghost bridge = node@;
        self.nodes.push(node);
        proof {
            assert(self@.nodes =~= nodes.push(bridge));
            assert(self@.nodes.take(nodes.len() as int) =~= nodes);
            assert forall|k: int| 0 <= k < self.nodes@.len() implies (
            #[trigger] self.nodes@[k]).storage.wf() by {
                if k < held.len() {
                    assert(self.nodes@[k] == held[k]);
                }
            }
            assert(distinct_positions(self@.nodes)) by {
                assert forall|p: int, q: int| 0 <= p < q < self@.nodes.len() implies !((
                #[trigger] self@.nodes[p]).x == (#[trigger] self@.nodes[q]).x && self@.nodes[p].y
                    == self@.nodes[q].y) by {
                    assert(self@.nodes[p] == nodes[p]);
                    if q < nodes.len() {
                        assert(self@.nodes[q] == nodes[q]);
                    }
                }
            }
            assert forall|k: int| 0 <= k < self@.nodes.len() implies {
                let node = #[trigger] self@.nodes[k];
                &&& in_grid(node.x, node.y)
                &&& valid_weights(node.weights, self@.dimension)
                &&& node.hits <= HIT_LIMIT
                &&& node.error <= ERROR_LIMIT
                &&& holds_valid_inputs::<S>(node.storage, self@.dimension)
            } by {
                if k < nodes.len() {
                    assert(self@.nodes[k] == nodes[k]);
                }
            }
            let k = nodes.len() as int;
            let earlier = self@.nodes.take(k);
            assert(earlier == nodes);
            assert(is_nearest_gap(earlier, a as int, u as int)) by {
                assert forall|i: int, j: int|
                    0 <= i < nodes.len() && 0 <= j < nodes.len() && joined(nodes, i) && !joined(
                        nodes,
                        j,
                    ) implies gap(nodes, a as int, u as int) < #[trigger] gap(nodes, i, j) || (gap(
                    nodes,
                    a as int,
                    u as int,
                ) == gap(nodes, i, j) && (a < i || (a == i && u <= j))) by {
                    assert(marks[i] && !marks[j]);
                    assert(first_nearest(nodes, a as int, u as int, i, j));
                }
            }
            assert(is_bridge::<S>(self@.nodes, k, before.time));
        }
    }

    /// Adds bridging nodes, at most `budget` of them, until the nodes are connected.
    fn heal(&mut self, budget: usize)
        requires
            old(self).wf(),
        ensures
            final(self).wf(),
            Self::with_nodes(final(self)@, old(self)@.nodes) == old(self)@,
            healed::<S>(old(self)@.nodes, final(self)@.nodes, budget as nat, old(self)@.time),
    {
        let ghost before = self@;
        let ghost base = before.nodes;
        let mut added: usize = 0;
        let mut whole = false;
        proof {
            assert(self@.nodes.take(base.len() as int) =~= base);
        }
        while added < budget && !whole
            invariant
                added <= budget,
                self.wf(),
                before == old(self)@,
                base == before.nodes,
                Self::with_nodes(self@, base) == before,
                self@.nodes.len() == base.len() + added,
                self@.nodes.take(base.len() as int) == base,
                forall|k: int|
                    base.len() <= k < self@.nodes.len() ==> #[trigger] is_bridge::<S>(
                        self@.nodes,
                        k,
                        before.time,
                    ),
                whole ==> connected(self@.nodes),
            decreases budget - added + if whole {
                0int
            } else {
                1int
            },
        {
            let ghost current = self@.nodes;
            proof {
                assert(reaches(current, 0, 0));
            }
            let marks = self.mark_joined();
            match self.closest_gap(&marks) {
                None => {
                    proof {
                        assert forall|k: int| 0 <= k < current.len() implies #[trigger] joined(
                            current,
                            k,
                        ) by {
                            assert(marks@[k]);
                        }
                    }
                    whole = true;
                },
                Some((a, u)) => {
                    self.add_bridge(a, u, Ghost(marks@));
                    proof {
                        assert forall|k: int| base.len() <= k < self@.nodes.len() implies #[trigger] is_bridge::<
                            S,
                        >(self@.nodes, k, before.time) by {
                            if k < current.len() {
                                lemma_bridge_kept::<S>(current, self@.nodes, k, before.time);
                            }
                        }
                        assert(self@.nodes.take(base.len() as int) =~= base) by {
                            assert(self@.nodes.take(current.len() as int) == current);
                            assert forall|i: int| 0 <= i < base.len() implies self@.nodes[i]
                                == base[i] by {
                                assert(self@.nodes.take(current.len() as int)[i] == current[i]);
                                assert(current.take(base.len() as int)[i] == base[i]);
                            }
                        }
                    }
                    added += 1;
                },
            }
        }
    }

    /// `after` is what a compaction leaves of `before`, where `verdicts` says of each node
    /// whether the filter keeps it: the survivors are healed with at most
    /// `rebalance_count` bridging nodes, and what the removed nodes held is stored again.
    pub open spec fn optimized(
        before: NetworkView<S::V>,
        verdicts: Seq<bool>,
        rebalance_count: nat,
        after: NetworkView<S::V>,
    ) -> bool {
        let n = before.nodes.len() as int;
        exists|mended: Seq<NodeView<S::V>>|
            #[trigger] healed::<S>(
                survivors(before.nodes, verdicts, n),
                mended,
                rebalance_count,
                before.time,
            ) && after == Self::restored(
                Self::with_nodes(before, mended),
                orphans::<S>(before.nodes, verdicts, n),
            )
    }

    /// Compacts the map: removes every node that the filter does not keep, but for the
    /// nodes on the corners of the bounding box (and for the first node, should no node
    /// be left); joins what is left with at most `rebalance_count` bridging nodes; and
    /// stores again what the removed nodes held.
    pub fn optimize<F: NodeFilter<S>>(&mut self, rebalance_count: usize, filter: &F)
        requires
            old(self).wf(),
        ensures
            final(self).wf(),
            Self::optimized(
                old(self)@,
                verdicts_of::<S, F>(filter, old(self)@.nodes),
                rebalance_count as nat,
                final(self)@,
            ),
    {
        let ghost before = self@;
        let ghost verdicts = verdicts_of::<S, F>(filter, before.nodes);
        let flags = self.mark_retained(filter);
        let pending = self.compact(&flags, Ghost(verdicts));
        self.heal(rebalance_count);
        let ghost mended = self@.nodes;
        proof {
            assert(self@ == Self::with_nodes(before, mended));
        }
        self.restore(pending);
        proof {
            assert(healed::<S>(
                survivors(before.nodes, verdicts, before.nodes.len() as int),
                mended,
                rebalance_count as nat,
                before.time,
            ));
        }
    }
}

/// A bridging node stays one when further nodes follow.
pub proof fn lemma_bridge_kept<S: Storage>(
    shorter: Seq<NodeView<S::V>>,
    longer: Seq<NodeView<S::V>>,
    k: int,
    time: nat,
)
    requires
        0 <= k < shorter.len() <= longer.len(),
        longer.take(shorter.len() as int) == shorter,
        is_bridge::<S>(shorter, k, time),
    ensures
        is_bridge::<S>(longer, k, time),
{
    assert(longer.take(k) =~= shorter.take(k)) by {
        assert forall|i: int| 0 <= i < k implies longer.take(k)[i] == shorter.take(k)[i] by {
            assert(longer.take(shorter.len() as int)[i] == longer[i]);
        }
    }
    assert(longer[k] == shorter[k]) by {
        assert(longer.take(shorter.len() as int)[k] == longer[k]);
    }
}

/// Pair `(a, u)` comes before pair `(i, j)`: it is nearer, or as near and earlier in the
/// order of the nodes.
pub open spec fn first_nearest<SV>(nodes: Seq<NodeView<SV>>, a: int, u: int, i: int, j: int) -> bool {
    gap(nodes, a, u) < gap(nodes, i, j) || (gap(nodes, a, u) == gap(nodes, i, j) && (a < i || (a
        == i && u <= j)))
}

/// The count of set marks among the first `n` depends on these marks only.
pub proof fn lemma_count_set_prefix(a: Seq<bool>, b: Seq<bool>, n: int)
    requires
        0 <= n <= a.len(),
        n <= b.len(),
        forall|i: int| 0 <= i < n ==> a[i] == b[i],
    ensures
        count_set(a, n) == count_set(b, n),
    decreases n,
{
    if n > 0 {
        lemma_count_set_prefix(a, b, n - 1);
    }
}

} // verus!
