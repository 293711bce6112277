//! A layered proximity graph for approximate nearest-neighbour search.
//!
//! Distances are natural numbers; only their order matters. The metric is a function that the caller
//! passes along.
pub mod distance;
pub mod growth;
pub mod links;
pub mod nearest;

use std::collections::HashSet;
use vstd::prelude::*;

verus! {

broadcast use vstd::std_specs::hash::group_hash_axioms;

/// A node and its distance.
pub type Hit = (u32, u64);

/// The mathematical counterpart of `HnswNode`.
#[verifier::ext_equal]
#[verifier::reject_recursive_types(V)]
pub struct NodeView<V> {
    pub id: u32,
    pub vector: V,
    /// The neighbours on each layer.
    pub layers: Seq<Seq<u32>>,
}

/// The mathematical counterpart of `HnswGraph`.
#[verifier::ext_equal]
#[verifier::reject_recursive_types(V)]
pub struct GraphView<V> {
    pub nodes: Seq<NodeView<V>>,
    pub entry_point: Option<u32>,
    pub max_layer: nat,
}

/// The position of the first node with this id, from position `i` on.
pub open spec fn find<V>(nodes: Seq<NodeView<V>>, id: u32, i: int) -> Option<int>
    decreases nodes.len() - i,
{
    if i < 0 || i >= nodes.len() {
        None
    } else if nodes[i].id == id {
        Some(i)
    } else {
        find(nodes, id, i + 1)
    }
}

// Searching one layer.

/// Where a hit at distance `d` goes among the first `n` hits: behind those that are no farther.
pub open spec fn hit_place(s: Seq<Hit>, d: u64, n: nat) -> nat
    decreases n,
{
    if n == 0 {
        0
    } else if d < s[n - 1].1 {
        hit_place(s, d, (n - 1) as nat)
    } else {
        n
    }
}

/// Hits in order of distance, with one more.
pub open spec fn add_hit(s: Seq<Hit>, x: Hit) -> Seq<Hit> {
    s.insert(hit_place(s, x.1, s.len()) as int, x)
}

pub proof fn lemma_hit_place(s: Seq<Hit>, d: u64, n: nat)
    ensures
        hit_place(s, d, n) <= n,
    decreases n,
{
    if n > 0 {
        lemma_hit_place(s, d, (n - 1) as nat);
    }
}

/// The first `n` elements.
pub open spec fn cut<A>(s: Seq<A>, n: nat) -> Seq<A> {
    if s.len() > n {
        s.take(n as int)
    } else {
        s
    }
}

/// The state of a search.
#[verifier::ext_equal]
pub struct Walk {
    pub visited: Set<u32>,
    /// The nodes whose neighbours are to be looked at, the nearest first.
    pub candidates: Seq<Hit>,
    /// The nearest nodes found so far, the nearest first.
    pub results: Seq<Hit>,
}

/// The start of a search at the first `n` entry points.
pub open spec fn walk_start<V>(
    nodes: Seq<NodeView<V>>,
    dist: spec_fn(V) -> u64,
    entry_points: Seq<u32>,
    n: nat,
) -> Walk
    decreases n,
{
    if n == 0 {
        Walk { visited: Set::empty(), candidates: Seq::empty(), results: Seq::empty() }
    } else {
        let w = walk_start(nodes, dist, entry_points, (n - 1) as nat);
        let id = entry_points[n - 1];
        if w.visited.contains(id) {
            w
        } else {
            match find(nodes, id, 0) {
                None => w,
                Some(i) => {
                    let hit = (id, dist(nodes[i].vector));
                    Walk {
                        visited: w.visited.insert(id),
                        candidates: add_hit(w.candidates, hit),
                        results: add_hit(w.results, hit),
                    }
                },
            }
        }
    }
}

/// Looking at a neighbour: it is taken if it is new and there is room for it or it is nearer than
/// the farthest result.
pub open spec fn walk_look<V>(
    nodes: Seq<NodeView<V>>,
    dist: spec_fn(V) -> u64,
    ef: nat,
    w: Walk,
    id: u32,
) -> Walk {
    if w.visited.contains(id) {
        w
    } else {
        let v = Walk { visited: w.visited.insert(id), ..w };
        match find(nodes, id, 0) {
            None => v,
            Some(i) => {
                let hit = (id, dist(nodes[i].vector));
                if w.results.len() < ef || w.results.len() == 0 || hit.1 < w.results.last().1 {
                    Walk {
                        candidates: add_hit(w.candidates, hit),
                        results: cut(add_hit(w.results, hit), ef),
                        ..v
                    }
                } else {
                    v
                }
            },
        }
    }
}

/// Looking at the first `n` of a list of neighbours.
pub open spec fn walk_list<V>(
    nodes: Seq<NodeView<V>>,
    dist: spec_fn(V) -> u64,
    ef: nat,
    w: Walk,
    list: Seq<u32>,
    n: nat,
) -> Walk
    decreases n,
{
    if n == 0 {
        w
    } else {
        walk_look(
            nodes,
            dist,
            ef,
            walk_list(nodes, dist, ef, w, list, (n - 1) as nat),
            list[n - 1],
        )
    }
}

/// The nearest candidate is farther than all results, of which there are enough.
pub open spec fn walk_over(w: Walk, ef: nat) -> bool {
    w.results.len() >= ef && w.results.len() > 0 && w.candidates[0].1 > w.results.last().1
}

/// Looking at the neighbours of the nearest candidate.
pub open spec fn walk_step<V>(
    nodes: Seq<NodeView<V>>,
    dist: spec_fn(V) -> u64,
    ef: nat,
    layer: nat,
    w: Walk,
) -> Walk {
    let id = w.candidates[0].0;
    let v = Walk { candidates: w.candidates.skip(1), ..w };
    match find(nodes, id, 0) {
        Some(i) => if layer < nodes[i].layers.len() {
            let list = nodes[i].layers[layer as int];
            walk_list(nodes, dist, ef, v, list, list.len())
        } else {
            v
        },
        None => v,
    }
}

/// How many of the first `n` nodes have not been visited.
pub open spec fn unvisited<V>(nodes: Seq<NodeView<V>>, visited: Set<u32>, n: nat) -> nat
    decreases n,
{
    if n == 0 {
        0
    } else {
        unvisited(nodes, visited, (n - 1) as nat) + if visited.contains(nodes[n - 1].id) {
            0nat
        } else {
            1
        }
    }
}

/// What bounds the rest of a search: the candidates and the nodes that may become candidates.
pub open spec fn walk_left<V>(nodes: Seq<NodeView<V>>, w: Walk) -> nat {
    w.candidates.len() + unvisited(nodes, w.visited, nodes.len())
}

proof fn lemma_unvisited<V>(nodes: Seq<NodeView<V>>, visited: Set<u32>, id: u32, n: nat)
    requires
        n <= nodes.len(),
        !visited.contains(id),
    ensures
        unvisited(nodes, visited.insert(id), n) <= unvisited(nodes, visited, n),
        (exists|k: int| 0 <= k < n && (#[trigger] nodes[k]).id == id) ==> unvisited(
            nodes,
            visited.insert(id),
            n,
        ) < unvisited(nodes, visited, n),
    decreases n,
{
    if n > 0 {
        lemma_unvisited(nodes, visited, id, (n - 1) as nat);
        if nodes[n - 1].id != id && exists|k: int| 0 <= k < n && (#[trigger] nodes[k]).id == id {
            let k = choose|k: int| 0 <= k < n && (#[trigger] nodes[k]).id == id;
            assert(k < n - 1);
            assert(nodes[k].id == id);
        }
    }
}

/// What `find` finds.
pub proof fn lemma_find<V>(nodes: Seq<NodeView<V>>, id: u32, i: int)
    requires
        0 <= i,
    ensures
        match find(nodes, id, i) {
            Some(k) => {
                &&& i <= k < nodes.len()
                &&& nodes[k].id == id
                &&& forall|j: int| i <= j < k ==> (#[trigger] nodes[j]).id != id
            },
            None => forall|j: int| i <= j < nodes.len() ==> (#[trigger] nodes[j]).id != id,
        },
    decreases nodes.len() - i,
{
    if i < nodes.len() && nodes[i].id != id {
        lemma_find(nodes, id, i + 1);
    }
}

proof fn lemma_list_left<V>(
    nodes: Seq<NodeView<V>>,
    dist: spec_fn(V) -> u64,
    ef: nat,
    w: Walk,
    list: Seq<u32>,
    n: nat,
)
    ensures
        walk_left(nodes, walk_list(nodes, dist, ef, w, list, n)) <= walk_left(nodes, w),
    decreases n,
{
    if n > 0 {
        lemma_list_left(nodes, dist, ef, w, list, (n - 1) as nat);
        let v = walk_list(nodes, dist, ef, w, list, (n - 1) as nat);
        let id = list[n - 1];
        if !v.visited.contains(id) {
            lemma_find(nodes, id, 0);
            lemma_unvisited(nodes, v.visited, id, nodes.len());
            if let Some(k) = find(nodes, id, 0) {
                assert(nodes[k].id == id);
                lemma_hit_place(v.candidates, dist(nodes[k].vector), v.candidates.len());
            }
        }
    }
}

pub proof fn lemma_step_left<V>(
    nodes: Seq<NodeView<V>>,
    dist: spec_fn(V) -> u64,
    ef: nat,
    layer: nat,
    w: Walk,
)
    requires
        w.candidates.len() > 0,
    ensures
        walk_left(nodes, walk_step(nodes, dist, ef, layer, w)) < walk_left(nodes, w),
{
    let id = w.candidates[0].0;
    let v = Walk { candidates: w.candidates.skip(1), ..w };
    if let Some(i) = find(nodes, id, 0) {
        if layer < nodes[i].layers.len() {
            let list = nodes[i].layers[layer as int];
            lemma_list_left(nodes, dist, ef, v, list, list.len());
        }
    }
}

/// The end of a search that goes on from `w`.
pub open spec fn walk_run<V>(
    nodes: Seq<NodeView<V>>,
    dist: spec_fn(V) -> u64,
    ef: nat,
    layer: nat,
    w: Walk,
) -> Walk
    decreases walk_left(nodes, w),
{
    if w.candidates.len() == 0 || walk_over(w, ef) {
        w
    } else {
        proof {
            lemma_step_left(nodes, dist, ef, layer, w);
        }
        walk_run(nodes, dist, ef, layer, walk_step(nodes, dist, ef, layer, w))
    }
}

/// The at most `ef` nearest nodes that a greedy search on a layer finds from the entry points, the
/// nearest first.
pub open spec fn layer_search<V>(
    nodes: Seq<NodeView<V>>,
    dist: spec_fn(V) -> u64,
    entry_points: Seq<u32>,
    ef: nat,
    layer: nat,
) -> Seq<Hit> {
    let w = walk_start(nodes, dist, entry_points, entry_points.len());
    walk_run(nodes, dist, ef, layer, Walk { results: cut(w.results, ef), ..w }).results
}

/// The node nearest to a vector that a greedy search finds from `ep` on the layers from `hi` down to
/// `lo`.
pub open spec fn descend<V>(
    nodes: Seq<NodeView<V>>,
    dist: spec_fn(V) -> u64,
    ep: u32,
    hi: int,
    lo: int,
) -> u32
    decreases hi - lo + 1,
{
    if hi < lo || hi < 0 {
        ep
    } else {
        let hits = layer_search(nodes, dist, seq![ep], 1, hi as nat);
        descend(
            nodes,
            dist,
            if hits.len() > 0 {
                hits[0].0
            } else {
                ep
            },
            hi - 1,
            lo,
        )
    }
}

// Inserting a node.

/// The distance from a vector.
pub open spec fn from_vector<V>(dist: spec_fn(V, V) -> u64, a: V) -> spec_fn(V) -> u64 {
    |b: V| dist(a, b)
}

/// The ids of hits.
pub open spec fn hit_ids(hits: Seq<Hit>) -> Seq<u32> {
    hits.map_values(|h: Hit| h.0)
}

/// The neighbours that are chosen among hits: the first `m`.
pub open spec fn chosen(hits: Seq<Hit>, m: nat) -> Seq<u32> {
    hit_ids(cut(hits, m))
}

/// The nodes after the neighbours of node `i` on a layer became `list`.
pub open spec fn set_list<V>(nodes: Seq<NodeView<V>>, i: int, layer: nat, list: Seq<u32>) -> Seq<
    NodeView<V>,
> {
    nodes.update(
        i,
        NodeView { layers: nodes[i].layers.update(layer as int, list), ..nodes[i] },
    )
}

/// The neighbours of the node with this id on a layer, if it is there and has that layer.
pub open spec fn list_of<V>(nodes: Seq<NodeView<V>>, id: u32, layer: nat) -> Option<Seq<u32>> {
    match find(nodes, id, 0) {
        Some(i) => if layer < nodes[i].layers.len() {
            Some(nodes[i].layers[layer as int])
        } else {
            None
        },
        None => None,
    }
}

/// The nodes after the neighbours of the node with this id on a layer became `list`, if it is there
/// and has that layer.
pub open spec fn put_list<V>(nodes: Seq<NodeView<V>>, id: u32, layer: nat, list: Seq<u32>) -> Seq<
    NodeView<V>,
> {
    match find(nodes, id, 0) {
        Some(i) => if layer < nodes[i].layers.len() {
            set_list(nodes, i, layer, list)
        } else {
            nodes
        },
        None => nodes,
    }
}

/// The first `n` of `others` get `id` as a neighbour.
pub open spec fn link_back<V>(
    nodes: Seq<NodeView<V>>,
    others: Seq<u32>,
    id: u32,
    layer: nat,
    n: nat,
) -> Seq<NodeView<V>>
    decreases n,
{
    if n == 0 {
        nodes
    } else {
        let v = link_back(nodes, others, id, layer, (n - 1) as nat);
        match list_of(v, others[n - 1], layer) {
            Some(list) => if list.contains(id) {
                v
            } else {
                put_list(v, others[n - 1], layer, list.push(id))
            },
            None => v,
        }
    }
}

/// The first `n` of `list` that are there, in order of their distance.
pub open spec fn by_distance<V>(
    nodes: Seq<NodeView<V>>,
    dist: spec_fn(V) -> u64,
    list: Seq<u32>,
    n: nat,
) -> Seq<Hit>
    decreases n,
{
    if n == 0 {
        Seq::empty()
    } else {
        let hits = by_distance(nodes, dist, list, (n - 1) as nat);
        match find(nodes, list[n - 1], 0) {
            Some(i) => add_hit(hits, (list[n - 1], dist(nodes[i].vector))),
            None => hits,
        }
    }
}

/// Ids other than this one.
pub open spec fn other_than(id: u32) -> spec_fn(u32) -> bool {
    |x: u32| x != id
}

/// The first `n` of `list`, unless they are among `kept`, lose `id` as a neighbour.
pub open spec fn unlink<V>(
    nodes: Seq<NodeView<V>>,
    list: Seq<u32>,
    kept: Seq<u32>,
    id: u32,
    layer: nat,
    n: nat,
) -> Seq<NodeView<V>>
    decreases n,
{
    if n == 0 {
        nodes
    } else {
        let v = unlink(nodes, list, kept, id, layer, (n - 1) as nat);
        let other = list[n - 1];
        if kept.contains(other) {
            v
        } else {
            match list_of(v, other, layer) {
                Some(l) => put_list(v, other, layer, l.filter(other_than(id))),
                None => v,
            }
        }
    }
}

/// A node with more than `limit` neighbours on a layer keeps the nearest; the others lose it as a
/// neighbour.
pub open spec fn prune<V>(
    nodes: Seq<NodeView<V>>,
    dist: spec_fn(V, V) -> u64,
    id: u32,
    layer: nat,
    limit: nat,
) -> Seq<NodeView<V>> {
    match list_of(nodes, id, layer) {
        Some(list) => if list.len() > limit {
            let own = nodes[find(nodes, id, 0)->0].vector;
            let kept = chosen(
                by_distance(nodes, from_vector(dist, own), list, list.len()),
                limit,
            );
            unlink(put_list(nodes, id, layer, kept), list, kept, id, layer, list.len())
        } else {
            nodes
        },
        None => nodes,
    }
}

/// The first `n` of `others` are pruned, one after the other.
pub open spec fn prune_all<V>(
    nodes: Seq<NodeView<V>>,
    dist: spec_fn(V, V) -> u64,
    others: Seq<u32>,
    layer: nat,
    limit: nat,
    n: nat,
) -> Seq<NodeView<V>>
    decreases n,
{
    if n == 0 {
        nodes
    } else {
        prune(
            prune_all(nodes, dist, others, layer, limit, (n - 1) as nat),
            dist,
            others[n - 1],
            layer,
            limit,
        )
    }
}

/// How many neighbours a node may have on a layer.
pub open spec fn limit_of(config: HnswConfig, layer: nat) -> nat {
    if layer == 0 {
        config.m_max as nat
    } else {
        config.m as nat
    }
}

/// The hits among which a node gets its neighbours on a layer.
pub open spec fn layer_hits<V>(
    nodes: Seq<NodeView<V>>,
    dist: spec_fn(V, V) -> u64,
    config: HnswConfig,
    vector: V,
    ep: u32,
    layer: nat,
) -> Seq<Hit> {
    layer_search(
        nodes,
        from_vector(dist, vector),
        seq![ep],
        config.ef_construction as nat,
        layer,
    )
}

/// The nodes after node `id` was linked on a layer with the nearest nodes found from `ep`.
pub open spec fn link_layer<V>(
    nodes: Seq<NodeView<V>>,
    dist: spec_fn(V, V) -> u64,
    config: HnswConfig,
    id: u32,
    vector: V,
    ep: u32,
    layer: nat,
) -> Seq<NodeView<V>> {
    let limit = limit_of(config, layer);
    let others = chosen(layer_hits(nodes, dist, config, vector, ep, layer), limit);
    let linked = link_back(put_list(nodes, id, layer, others), others, id, layer, others.len());
    prune_all(linked, dist, others, layer, limit, others.len())
}

/// The nodes after node `id` was linked on the layers below `n`, from the top down.
pub open spec fn link_layers<V>(
    nodes: Seq<NodeView<V>>,
    dist: spec_fn(V, V) -> u64,
    config: HnswConfig,
    id: u32,
    vector: V,
    ep: u32,
    n: nat,
) -> Seq<NodeView<V>>
    decreases n,
{
    if n == 0 {
        nodes
    } else {
        let layer = (n - 1) as nat;
        let hits = layer_hits(nodes, dist, config, vector, ep, layer);
        link_layers(
            link_layer(nodes, dist, config, id, vector, ep, layer),
            dist,
            config,
            id,
            vector,
            if hits.len() > 0 {
                hits[0].0
            } else {
                ep
            },
            layer,
        )
    }
}

/// A node without neighbours, with the layers from 0 to `level`.
pub open spec fn lone_node<V>(id: u32, vector: V, level: nat) -> NodeView<V> {
    NodeView { id, vector, layers: Seq::new(level + 1, |i: int| Seq::empty()) }
}

/// The graph after a node was inserted on the layers from 0 to `level`.
pub open spec fn graph_insert<V>(
    g: GraphView<V>,
    dist: spec_fn(V, V) -> u64,
    config: HnswConfig,
    id: u32,
    vector: V,
    level: nat,
) -> GraphView<V> {
    let node = lone_node(id, vector, level);
    if g.nodes.len() == 0 {
        GraphView { nodes: seq![node], entry_point: Some(id), max_layer: level }
    } else {
        let ep = descend(
            g.nodes,
            from_vector(dist, vector),
            g.entry_point->0,
            g.max_layer as int,
            1int + level,
        );
        let top = if level < g.max_layer {
            level
        } else {
            g.max_layer
        };
        let nodes = link_layers(g.nodes.push(node), dist, config, id, vector, ep, top + 1);
        if level > g.max_layer {
            GraphView { nodes, entry_point: Some(id), max_layer: level }
        } else {
            GraphView { nodes, ..g }
        }
    }
}

/// The at most `k` nearest nodes that a search finds, the nearest first.
pub open spec fn graph_search<V>(
    g: GraphView<V>,
    dist: spec_fn(V) -> u64,
    ef_search: nat,
    k: nat,
) -> Seq<Hit> {
    if g.nodes.len() == 0 {
        Seq::empty()
    } else {
        let ep = descend(g.nodes, dist, g.entry_point->0, g.max_layer as int, 1);
        let ef = if ef_search > k {
            ef_search
        } else {
            k
        };
        cut(layer_search(g.nodes, dist, seq![ep], ef, 0), k)
    }
}

// The graph.

#[derive(Debug, Clone, Copy)]
pub struct HnswConfig {
    /// How many neighbours a node may have on the upper layers.
    pub m: usize,
    /// How many on the lowest layer.
    pub m_max: usize,
    pub ef_construction: usize,
    pub ef_search: usize,
}

impl HnswConfig {
    pub fn new(m: usize, ef_construction: usize, ef_search: usize) -> (c: Self)
        requires
            2 * m <= usize::MAX,
        ensures
            c == (HnswConfig { m, m_max: (2 * m) as usize, ef_construction, ef_search }),
    {
        Self { m, m_max: 2 * m, ef_construction, ef_search }
    }

    pub fn default() -> (c: Self)
        ensures
            c == (HnswConfig { m: 16, m_max: 32, ef_construction: 200, ef_search: 50 }),
    {
        Self::new(16, 200, 50)
    }
}

pub struct HnswNode<V> {
    pub id: u32,
    pub vector: V,
    pub layers: Vec<Vec<u32>>,
}

pub open spec fn layers_view(s: Seq<Vec<u32>>) -> Seq<Seq<u32>> {
    Seq::new(s.len(), |i: int| s[i]@)
}

impl<V> View for HnswNode<V> {
    type V = NodeView<V>;

    open spec fn view(&self) -> NodeView<V> {
        NodeView { id: self.id, vector: self.vector, layers: layers_view(self.layers@) }
    }
}

pub open spec fn nodes_view<V>(s: Seq<HnswNode<V>>) -> Seq<NodeView<V>> {
    Seq::new(s.len(), |i: int| s[i]@)
}

pub struct HnswGraph<V> {
    pub config: HnswConfig,
    pub nodes: Vec<HnswNode<V>>,
    pub entry_point: Option<u32>,
    pub max_layer: usize,
    pub dims: usize,
}

impl<V> View for HnswGraph<V> {
    type V = GraphView<V>;

    open spec fn view(&self) -> GraphView<V> {
        GraphView {
            nodes: nodes_view(self.nodes@),
            entry_point: self.entry_point,
            max_layer: self.max_layer as nat,
        }
    }
}

/// The metric can be applied to all vectors, and gives the same distance each time.
pub open spec fn is_metric<V, F: Fn(&V, &V) -> u64>(f: F) -> bool {
    &&& forall|a: V, b: V| #[trigger] f.requires((&a, &b))
    &&& forall|a: V, b: V, d: u64, e: u64| #[trigger]
        f.ensures((&a, &b), d) && #[trigger] f.ensures((&a, &b), e) ==> d == e
}

/// The distance that the metric gives.
pub open spec fn measured<V, F: Fn(&V, &V) -> u64>(f: F) -> spec_fn(V, V) -> u64 {
    |a: V, b: V| choose|d: u64| f.ensures((&a, &b), d)
}


/// Chooses the neighbours among hits.
pub fn select_neighbors(candidates: &[Hit], m: usize) -> (ids: Vec<u32>)
    ensures
        ids@ == chosen(candidates@, m as nat),
{
    let mut ids: Vec<u32> = Vec::new();
    let n: usize = candidates.len();
    let mut i: usize = 0;
    while i < n && i < m
        invariant
            i <= n,
            i <= m,
            n == candidates@.len(),
            ids@ == hit_ids(candidates@.take(i as int)),
        decreases n - i,
    {
        ids.push(candidates[i].0);
        i = i + 1;
        assert(ids@ =~= hit_ids(candidates@.take(i as int)));
    }
    if n <= m {
        assert(candidates@.take(i as int) =~= candidates@);
    }
    ids
}

/// Measures a distance.
fn measure<V, F: Fn(&V, &V) -> u64>(f: &F, a: &V, b: &V) -> (d: u64)
    requires
        is_metric(*f),
    ensures
        d == measured(*f)(*a, *b),
{
    let d = f(a, b);
    assert(f.ensures((a, b), d));
    d
}

/// Adds a hit to hits in order of distance.
fn push_hit(hits: &mut Vec<Hit>, x: Hit)
    ensures
        final(hits)@ == add_hit(old(hits)@, x),
{
    let ghost s = hits@;
    let mut i: usize = hits.len();
    while i > 0 && x.1 < hits[i - 1].1
        invariant
            i <= hits@.len(),
            hits@ == s,
            hit_place(s, x.1, s.len()) == hit_place(s, x.1, i as nat),
        decreases i,
    {
        i = i - 1;
    }
    hits.insert(i, x);
}

fn has_id(ids: &Vec<u32>, id: u32) -> (b: bool)
    ensures
        b == ids@.contains(id),
{
    let mut i: usize = 0;
    while i < ids.len()
        invariant
            i <= ids@.len(),
            forall|k: int| 0 <= k < i ==> ids@[k] != id,
        decreases ids@.len() - i,
    {
        if ids[i] == id {
            return true;
        }
        i = i + 1;
    }
    false
}

impl<V> HnswGraph<V> {
    pub fn new(dims: usize, config: HnswConfig) -> (g: Self)
        ensures
            g.config == config,
            g.dims == dims,
            g@ == (GraphView { nodes: Seq::<NodeView<V>>::empty(), entry_point: None, max_layer: 0 }),
    {
        let g = Self { config, nodes: Vec::new(), entry_point: None, max_layer: 0, dims };
        assert(g@.nodes =~= Seq::<NodeView<V>>::empty());
        g
    }

    pub fn len(&self) -> (n: usize)
        ensures
            n == self@.nodes.len(),
    {
        self.nodes.len()
    }

    pub fn is_empty(&self) -> (b: bool)
        ensures
            b == (self@.nodes.len() == 0),
    {
        self.nodes.len() == 0
    }

    /// The position of the node with this id.
    fn position(&self, id: u32) -> (res: Option<usize>)
        ensures
            match res {
                Some(i) => i < self.nodes@.len() && find(self@.nodes, id, 0) == Some(i as int),
                None => find(self@.nodes, id, 0) is None,
            },
    {
        let ghost nodes = self@.nodes;
        let n: usize = self.nodes.len();
        let mut i: usize = 0;
        while i < n
            invariant
                i <= n,
                n == self.nodes@.len(),
                nodes == self@.nodes,
                find(nodes, id, 0) == find(nodes, id, i as int),
            decreases n - i,
        {
            assert(nodes[i as int].id == self.nodes@[i as int].id);
            if self.nodes[i].id == id {
                return Some(i);
            }
            i = i + 1;
        }
        None
    }

    /// The node with this id.
    pub fn get_node(&self, id: u32) -> (res: Option<&HnswNode<V>>)
        ensures
            match res {
                Some(node) => find(self@.nodes, id, 0) is Some && node@ == self@.nodes[find(
                    self@.nodes,
                    id,
                    0,
                )->0],
                None => find(self@.nodes, id, 0) is None,
            },
    {
        match self.position(id) {
            Some(i) => Some(&self.nodes[i]),
            None => None,
        }
    }

    /// Finds the at most `ef` nearest nodes on a layer that a greedy search reaches from the entry
    /// points, the nearest first.
    #[verifier::rlimit(40)]
    pub fn search_layer<F: Fn(&V, &V) -> u64>(
        &self,
        query: &V,
        entry_points: &[u32],
        ef: usize,
        layer: usize,
        metric: &F,
    ) -> (hits: Vec<Hit>)
        requires
            is_metric::<V, F>(*metric),
        ensures
            hits@ == layer_search(
                self@.nodes,
                from_vector(measured(*metric), *query),
                entry_points@,
                ef as nat,
                layer as nat,
            ),
    {
        let ghost nodes = self@.nodes;
        let ghost dist = from_vector(measured(*metric), *query);
        let mut visited: HashSet<u32> = HashSet::new();
        let mut candidates: Vec<Hit> = Vec::new();
        let mut results: Vec<Hit> = Vec::new();
        let mut e: usize = 0;
        while e < entry_points.len()
            invariant
                e <= entry_points@.len(),
                nodes == self@.nodes,
                is_metric::<V, F>(*metric),
                dist == from_vector(measured(*metric), *query),
                walk_start(nodes, dist, entry_points@, e as nat) == (Walk {
                    visited: visited@,
                    candidates: candidates@,
                    results: results@,
                }),
            decreases entry_points@.len() - e,
        {
            let id: u32 = entry_points[e];
            if !visited.contains(&id) {
                if let Some(i) = self.position(id) {
                    visited.insert(id);
                    let d: u64 = measure(metric, query, &self.nodes[i].vector);
                    assert(nodes[i as int].vector == self.nodes@[i as int].vector);
                    push_hit(&mut candidates, (id, d));
                    push_hit(&mut results, (id, d));
                }
            }
            e = e + 1;
        }
        if results.len() > ef {
            results.truncate(ef);
        }
        let ghost first = Walk {
            visited: visited@,
            candidates: candidates@,
            results: results@,
        };
        proof {
            let w = walk_start(nodes, dist, entry_points@, entry_points@.len());
            assert(first =~= (Walk { results: cut(w.results, ef as nat), ..w }));
        }
        let ghost end = walk_run(nodes, dist, ef as nat, layer as nat, first);
        while candidates.len() > 0
            invariant
                nodes == self@.nodes,
                is_metric::<V, F>(*metric),
                dist == from_vector(measured(*metric), *query),
                end == walk_run(
                    nodes,
                    dist,
                    ef as nat,
                    layer as nat,
                    Walk { visited: visited@, candidates: candidates@, results: results@ },
                ),
                end.results == layer_search(
                    nodes,
                    dist,
                    entry_points@,
                    ef as nat,
                    layer as nat,
                ),
            decreases walk_left(
                nodes,
                Walk { visited: visited@, candidates: candidates@, results: results@ },
            ),
        {
            let ghost w = Walk {
                visited: visited@,
                candidates: candidates@,
                results: results@,
            };
            let count: usize = results.len();
            if count >= ef && count > 0 && candidates[0].1 > results[count - 1].1 {
                assert(walk_over(w, ef as nat));
                return results;
            }
            assert(!walk_over(w, ef as nat));
            proof {
                lemma_step_left(nodes, dist, ef as nat, layer as nat, w);
            }
            let current: Hit = candidates.remove(0);
            assert(candidates@ =~= w.candidates.skip(1));
            if let Some(i) = self.position(current.0) {
                assert(nodes[i as int].layers == layers_view(self.nodes@[i as int].layers@));
                if layer < self.nodes[i].layers.len() {
                    let list: &Vec<u32> = &self.nodes[i].layers[layer];
                    let ghost v = Walk { candidates: candidates@, ..w };
                    assert(nodes[i as int].layers[layer as int] == list@);
                    let mut k: usize = 0;
                    while k < list.len()
                        invariant
                            k <= list@.len(),
                            nodes == self@.nodes,
                            is_metric::<V, F>(*metric),
                            dist == from_vector(measured(*metric), *query),
                            walk_list(nodes, dist, ef as nat, v, list@, k as nat) == (Walk {
                                visited: visited@,
                                candidates: candidates@,
                                results: results@,
                            }),
                        decreases list@.len() - k,
                    {
                        let id: u32 = list[k];
                        let ghost x = Walk {
                            visited: visited@,
                            candidates: candidates@,
                            results: results@,
                        };
                        if !visited.contains(&id) {
                            visited.insert(id);
                            if let Some(j) = self.position(id) {
                                let d: u64 = measure(metric, query, &self.nodes[j].vector);
                                assert(nodes[j as int].vector == self.nodes@[j as int].vector);
                                let n: usize = results.len();
                                if n < ef || n == 0 || d < results[n - 1].1 {
                                    push_hit(&mut results, (id, d));
                                    if results.len() > ef {
                                        results.truncate(ef);
                                    }
                                    push_hit(&mut candidates, (id, d));
                                }
                            }
                        }
                        proof {
                            let y = Walk {
                                visited: visited@,
                                candidates: candidates@,
                                results: results@,
                            };
                            assert(y =~= walk_look(nodes, dist, ef as nat, x, id));
                        }
                        k = k + 1;
                    }
                }
            }
            proof {
                let y = Walk {
                    visited: visited@,
                    candidates: candidates@,
                    results: results@,
                };
                assert(y =~= walk_step(nodes, dist, ef as nat, layer as nat, w));
            }
        }
        results
    }
}

/// Two lists of nodes differ in their links only.
pub open spec fn same_nodes<V>(a: Seq<NodeView<V>>, b: Seq<NodeView<V>>) -> bool {
    &&& a.len() == b.len()
    &&& forall|i: int|
        0 <= i < a.len() ==> (#[trigger] a[i]).id == b[i].id && a[i].vector == b[i].vector
            && a[i].layers.len() == b[i].layers.len()
}

pub proof fn lemma_find_same<V>(a: Seq<NodeView<V>>, b: Seq<NodeView<V>>, id: u32, i: int)
    requires
        same_nodes(a, b),
        0 <= i,
    ensures
        find(a, id, i) == find(b, id, i),
    decreases a.len() - i,
{
    if i < a.len() {
        assert(a[i].id == b[i].id);
        lemma_find_same(a, b, id, i + 1);
    }
}

pub proof fn lemma_put_same<V>(nodes: Seq<NodeView<V>>, id: u32, layer: nat, list: Seq<u32>)
    ensures
        same_nodes(nodes, put_list(nodes, id, layer, list)),
{
    lemma_find(nodes, id, 0);
}

pub proof fn lemma_link_back_same<V>(
    nodes: Seq<NodeView<V>>,
    others: Seq<u32>,
    id: u32,
    layer: nat,
    n: nat,
)
    ensures
        same_nodes(nodes, link_back(nodes, others, id, layer, n)),
    decreases n,
{
    if n > 0 {
        lemma_link_back_same(nodes, others, id, layer, (n - 1) as nat);
        let v = link_back(nodes, others, id, layer, (n - 1) as nat);
        if let Some(list) = list_of(v, others[n - 1], layer) {
            lemma_put_same(v, others[n - 1], layer, list.push(id));
            lemma_same_trans(nodes, v, put_list(v, others[n - 1], layer, list.push(id)));
        }
    }
}

pub proof fn lemma_same_trans<V>(
    a: Seq<NodeView<V>>,
    b: Seq<NodeView<V>>,
    c: Seq<NodeView<V>>,
)
    requires
        same_nodes(a, b),
        same_nodes(b, c),
    ensures
        same_nodes(a, c),
{
    assert forall|i: int| 0 <= i < a.len() implies (#[trigger] a[i]).id == c[i].id && a[i].vector
        == c[i].vector && a[i].layers.len() == c[i].layers.len() by {
        assert(b[i].id == c[i].id);
    }
}

pub proof fn lemma_unlink_same<V>(
    nodes: Seq<NodeView<V>>,
    list: Seq<u32>,
    kept: Seq<u32>,
    id: u32,
    layer: nat,
    n: nat,
)
    ensures
        same_nodes(nodes, unlink(nodes, list, kept, id, layer, n)),
    decreases n,
{
    if n > 0 {
        lemma_unlink_same(nodes, list, kept, id, layer, (n - 1) as nat);
        let v = unlink(nodes, list, kept, id, layer, (n - 1) as nat);
        if let Some(l) = list_of(v, list[n - 1], layer) {
            let m = l.filter(other_than(id));
            lemma_put_same(v, list[n - 1], layer, m);
            lemma_same_trans(nodes, v, put_list(v, list[n - 1], layer, m));
        }
    }
}

pub proof fn lemma_prune_same<V>(
    nodes: Seq<NodeView<V>>,
    dist: spec_fn(V, V) -> u64,
    id: u32,
    layer: nat,
    limit: nat,
)
    ensures
        same_nodes(nodes, prune(nodes, dist, id, layer, limit)),
{
    if let Some(list) = list_of(nodes, id, layer) {
        if list.len() > limit {
            let own = nodes[find(nodes, id, 0)->0].vector;
            let kept = chosen(
                by_distance(nodes, from_vector(dist, own), list, list.len()),
                limit,
            );
            let put = put_list(nodes, id, layer, kept);
            lemma_put_same(nodes, id, layer, kept);
            lemma_unlink_same(put, list, kept, id, layer, list.len());
            lemma_same_trans(nodes, put, unlink(put, list, kept, id, layer, list.len()));
        }
    }
}

pub proof fn lemma_prune_all_same<V>(
    nodes: Seq<NodeView<V>>,
    dist: spec_fn(V, V) -> u64,
    others: Seq<u32>,
    layer: nat,
    limit: nat,
    n: nat,
)
    ensures
        same_nodes(nodes, prune_all(nodes, dist, others, layer, limit, n)),
    decreases n,
{
    if n > 0 {
        lemma_prune_all_same(nodes, dist, others, layer, limit, (n - 1) as nat);
        let v = prune_all(nodes, dist, others, layer, limit, (n - 1) as nat);
        lemma_prune_same(v, dist, others[n - 1], layer, limit);
        lemma_same_trans(nodes, v, prune(v, dist, others[n - 1], layer, limit));
    }
}

/// Linking a node on a layer changes links only.
pub proof fn lemma_link_layer_same<V>(
    nodes: Seq<NodeView<V>>,
    dist: spec_fn(V, V) -> u64,
    config: HnswConfig,
    id: u32,
    vector: V,
    ep: u32,
    layer: nat,
)
    ensures
        same_nodes(nodes, link_layer(nodes, dist, config, id, vector, ep, layer)),
{
    let limit = limit_of(config, layer);
    let others = chosen(layer_hits(nodes, dist, config, vector, ep, layer), limit);
    let put = put_list(nodes, id, layer, others);
    let linked = link_back(put, others, id, layer, others.len());
    lemma_put_same(nodes, id, layer, others);
    lemma_link_back_same(put, others, id, layer, others.len());
    lemma_same_trans(nodes, put, linked);
    lemma_prune_all_same(linked, dist, others, layer, limit, others.len());
    lemma_same_trans(
        nodes,
        linked,
        prune_all(linked, dist, others, layer, limit, others.len()),
    );
}

fn copy_ids(ids: &Vec<u32>) -> (copy: Vec<u32>)
    ensures
        copy@ == ids@,
{
    let mut copy: Vec<u32> = Vec::new();
    let mut i: usize = 0;
    while i < ids.len()
        invariant
            i <= ids@.len(),
            copy@ == ids@.take(i as int),
        decreases ids@.len() - i,
    {
        copy.push(ids[i]);
        i = i + 1;
        assert(copy@ =~= ids@.take(i as int));
    }
    assert(copy@ =~= ids@);
    copy
}

/// The ids other than `id`.
fn without_id(ids: &Vec<u32>, id: u32) -> (rest: Vec<u32>)
    ensures
        rest@ == ids@.filter(other_than(id)),
{
    let ghost p = other_than(id);
    let mut rest: Vec<u32> = Vec::new();
    let mut i: usize = 0;
    proof {
        reveal(Seq::filter);
        assert(ids@.take(0).filter(p) =~= Seq::empty());
    }
    while i < ids.len()
        invariant
            i <= ids@.len(),
            p == other_than(id),
            rest@ == ids@.take(i as int).filter(p),
        decreases ids@.len() - i,
    {
        proof {
            reveal(Seq::filter);
            assert(ids@.take(i + 1).drop_last() =~= ids@.take(i as int));
        }
        if ids[i] != id {
            rest.push(ids[i]);
        }
        i = i + 1;
    }
    assert(ids@.take(i as int) =~= ids@);
    rest
}

impl<V> HnswGraph<V> {
    /// Sets the neighbours of a node on a layer, if it is there and has that layer.
    fn put_neighbors(&mut self, id: u32, layer: usize, list: Vec<u32>)
        ensures
            final(self).config == old(self).config,
            final(self).dims == old(self).dims,
            final(self).entry_point == old(self).entry_point,
            final(self).max_layer == old(self).max_layer,
            final(self)@.nodes == put_list(old(self)@.nodes, id, layer as nat, list@),
    {
        let ghost before = self@.nodes;
        if let Some(i) = self.position(id) {
            assert(before[i as int] == self.nodes@[i as int]@);
            if layer < self.nodes[i].layers.len() {
                let ghost l = list@;
                let ghost layers = before[i as int].layers;
                self.nodes[i].layers[layer] = list;
                proof {
                    assert(layers_view(self.nodes@[i as int].layers@) =~= layers.update(
                        layer as int,
                        l,
                    ));
                    assert(self@.nodes =~= set_list(before, i as int, layer as nat, l));
                }
            }
        }
    }

    /// The neighbours of a node on a layer, if it is there and has that layer.
    fn neighbors(&self, id: u32, layer: usize) -> (res: Option<&Vec<u32>>)
        ensures
            match res {
                Some(list) => list_of(self@.nodes, id, layer as nat) == Some(list@),
                None => list_of(self@.nodes, id, layer as nat) is None,
            },
    {
        match self.position(id) {
            None => None,
            Some(i) => {
                assert(self@.nodes[i as int] == self.nodes@[i as int]@);
                if layer < self.nodes[i].layers.len() {
                    Some(&self.nodes[i].layers[layer])
                } else {
                    None
                }
            },
        }
    }

    /// Makes a node a neighbour of others.
    fn add_back_links(&mut self, others: &Vec<u32>, id: u32, layer: usize)
        ensures
            final(self).config == old(self).config,
            final(self).dims == old(self).dims,
            final(self).entry_point == old(self).entry_point,
            final(self).max_layer == old(self).max_layer,
            final(self)@.nodes == link_back(
                old(self)@.nodes,
                others@,
                id,
                layer as nat,
                others@.len(),
            ),
    {
        let ghost before = self@.nodes;
        let mut k: usize = 0;
        while k < others.len()
            invariant
                k <= others@.len(),
                self.config == old(self).config,
                self.dims == old(self).dims,
                self.entry_point == old(self).entry_point,
                self.max_layer == old(self).max_layer,
                before == old(self)@.nodes,
                self@.nodes == link_back(before, others@, id, layer as nat, k as nat),
            decreases others@.len() - k,
        {
            let longer: Option<Vec<u32>> = match self.neighbors(others[k], layer) {
                Some(list) => if has_id(list, id) {
                    None
                } else {
                    let mut l = copy_ids(list);
                    l.push(id);
                    Some(l)
                },
                None => None,
            };
            if let Some(l) = longer {
                self.put_neighbors(others[k], layer, l);
            }
            k = k + 1;
        }
    }

    /// Keeps the nearest neighbours of a node if it has too many; the others lose it as a neighbour.
    fn prune_node<F: Fn(&V, &V) -> u64>(&mut self, id: u32, layer: usize, limit: usize, metric: &F)
        requires
            is_metric::<V, F>(*metric),
        ensures
            final(self).config == old(self).config,
            final(self).dims == old(self).dims,
            final(self).entry_point == old(self).entry_point,
            final(self).max_layer == old(self).max_layer,
            final(self)@.nodes == prune(
                old(self)@.nodes,
                measured(*metric),
                id,
                layer as nat,
                limit as nat,
            ),
    {
        let ghost before = self@.nodes;
        let i: usize = match self.position(id) {
            None => {
                return;
            },
            Some(i) => i,
        };
        assert(before[i as int] == self.nodes@[i as int]@);
        if layer >= self.nodes[i].layers.len() {
            return;
        }
        let list: Vec<u32> = copy_ids(&self.nodes[i].layers[layer]);
        if list.len() <= limit {
            return;
        }
        let ghost dist = from_vector(measured(*metric), before[i as int].vector);
        let mut hits: Vec<Hit> = Vec::new();
        let mut k: usize = 0;
        while k < list.len()
            invariant
                k <= list@.len(),
                i < self.nodes@.len(),
                is_metric::<V, F>(*metric),
                before == self@.nodes,
                *self == *old(self),
                dist == from_vector(measured(*metric), before[i as int].vector),
                before[i as int].vector == self.nodes@[i as int].vector,
                hits@ == by_distance(before, dist, list@, k as nat),
            decreases list@.len() - k,
        {
            if let Some(j) = self.position(list[k]) {
                let d: u64 = measure(metric, &self.nodes[i].vector, &self.nodes[j].vector);
                assert(before[j as int].vector == self.nodes@[j as int].vector);
                push_hit(&mut hits, (list[k], d));
            }
            k = k + 1;
        }
        let kept: Vec<u32> = select_neighbors(hits.as_slice(), limit);
        let copy: Vec<u32> = copy_ids(&kept);
        self.put_neighbors(id, layer, copy);
        let ghost put = self@.nodes;
        k = 0;
        while k < list.len()
            invariant
                k <= list@.len(),
                self.config == old(self).config,
                self.dims == old(self).dims,
                self.entry_point == old(self).entry_point,
                self.max_layer == old(self).max_layer,
                self@.nodes == unlink(put, list@, kept@, id, layer as nat, k as nat),
            decreases list@.len() - k,
        {
            if !has_id(&kept, list[k]) {
                let shorter: Option<Vec<u32>> = match self.neighbors(list[k], layer) {
                    Some(l) => Some(without_id(l, id)),
                    None => None,
                };
                if let Some(l) = shorter {
                    self.put_neighbors(list[k], layer, l);
                }
            }
            k = k + 1;
        }
    }

    /// Links the node at position `at` on a layer with the nearest nodes found from `ep`. Returns
    /// where to go on from.
    fn link<F: Fn(&V, &V) -> u64>(
        &mut self,
        at: usize,
        id: u32,
        ep: u32,
        layer: usize,
        metric: &F,
    ) -> (next: u32)
        requires
            is_metric::<V, F>(*metric),
            at < old(self)@.nodes.len(),
        ensures
            final(self).config == old(self).config,
            final(self).dims == old(self).dims,
            final(self).entry_point == old(self).entry_point,
            final(self).max_layer == old(self).max_layer,
            final(self)@.nodes == link_layer(
                old(self)@.nodes,
                measured(*metric),
                old(self).config,
                id,
                old(self)@.nodes[at as int].vector,
                ep,
                layer as nat,
            ),
            ({
                let hits = layer_hits(
                    old(self)@.nodes,
                    measured(*metric),
                    old(self).config,
                    old(self)@.nodes[at as int].vector,
                    ep,
                    layer as nat,
                );
                next == if hits.len() > 0 {
                    hits[0].0
                } else {
                    ep
                }
            }),
    {
        let ghost before = self@.nodes;
        assert(before[at as int].vector == self.nodes@[at as int].vector);
        let mut entry: Vec<u32> = Vec::new();
        entry.push(ep);
        assert(entry@ =~= seq![ep]);
        let hits: Vec<Hit> = self.search_layer(
            &self.nodes[at].vector,
            entry.as_slice(),
            self.config.ef_construction,
            layer,
            metric,
        );
        let limit: usize = if layer == 0 {
            self.config.m_max
        } else {
            self.config.m
        };
        let others: Vec<u32> = select_neighbors(hits.as_slice(), limit);
        let copy: Vec<u32> = copy_ids(&others);
        self.put_neighbors(id, layer, copy);
        self.add_back_links(&others, id, layer);
        let ghost linked = self@.nodes;
        let mut k: usize = 0;
        while k < others.len()
            invariant
                k <= others@.len(),
                is_metric::<V, F>(*metric),
                self.config == old(self).config,
                self.dims == old(self).dims,
                self.entry_point == old(self).entry_point,
                self.max_layer == old(self).max_layer,
                self@.nodes == prune_all(
                    linked,
                    measured(*metric),
                    others@,
                    layer as nat,
                    limit as nat,
                    k as nat,
                ),
            decreases others@.len() - k,
        {
            self.prune_node(others[k], layer, limit, metric);
            k = k + 1;
        }
        if hits.len() > 0 {
            hits[0].0
        } else {
            ep
        }
    }

    /// Goes down from layer `hi` to layer `lo`, from the nearest node to the nearest node.
    fn descend_layers<F: Fn(&V, &V) -> u64>(
        &self,
        query: &V,
        ep: u32,
        hi: usize,
        lo: usize,
        metric: &F,
    ) -> (last: u32)
        requires
            is_metric::<V, F>(*metric),
            lo >= 1,
        ensures
            last == descend(
                self@.nodes,
                from_vector(measured(*metric), *query),
                ep,
                hi as int,
                lo as int,
            ),
    {
        let ghost dist = from_vector(measured(*metric), *query);
        let mut at: u32 = ep;
        let mut layer: usize = hi;
        while layer >= lo
            invariant
                lo >= 1,
                is_metric::<V, F>(*metric),
                dist == from_vector(measured(*metric), *query),
                descend(self@.nodes, dist, ep, hi as int, lo as int) == descend(
                    self@.nodes,
                    dist,
                    at,
                    layer as int,
                    lo as int,
                ),
            decreases layer,
        {
            let mut entry: Vec<u32> = Vec::new();
            entry.push(at);
            assert(entry@ =~= seq![at]);
            let hits: Vec<Hit> = self.search_layer(query, entry.as_slice(), 1, layer, metric);
            if hits.len() > 0 {
                at = hits[0].0;
            }
            layer = layer - 1;
        }
        at
    }

    /// Inserts a node with the layers from 0 to `level`, and links it on each of them with the
    /// nearest nodes found.
    pub fn insert<F: Fn(&V, &V) -> u64>(&mut self, id: u32, vector: V, level: usize, metric: &F)
        requires
            is_metric::<V, F>(*metric),
            level < usize::MAX,
            old(self)@.nodes.len() > 0 ==> old(self)@.entry_point is Some,
        ensures
            final(self).config == old(self).config,
            final(self).dims == old(self).dims,
            final(self)@ == graph_insert(
                old(self)@,
                measured(*metric),
                old(self).config,
                id,
                vector,
                level as nat,
            ),
    {
        let ghost before = self@;
        let ghost dist = measured(*metric);
        let mut layers: Vec<Vec<u32>> = Vec::new();
        let mut i: usize = 0;
        while i < level + 1
            invariant
                i <= level + 1,
                level < usize::MAX,
                layers_view(layers@) == Seq::new(i as nat, |k: int| Seq::<u32>::empty()),
            decreases level + 1 - i,
        {
            let ghost l = layers_view(layers@);
            layers.push(Vec::new());
            i = i + 1;
            assert(layers_view(layers@) =~= l.push(Seq::empty()));
            assert(layers_view(layers@) =~= Seq::new(i as nat, |k: int| Seq::<u32>::empty()));
        }
        let node = HnswNode { id, vector, layers };
        let ghost lone = lone_node(id, vector, level as nat);
        assert(node@ =~= lone);
        let entry: u32 = match self.entry_point {
            Some(e) => e,
            None => 0,
        };
        if self.nodes.len() == 0 {
            self.nodes.push(node);
            self.entry_point = Some(id);
            self.max_layer = level;
            assert(self@.nodes =~= seq![lone]);
            return;
        }
        let mut ep: u32 = self.descend_layers(
            &node.vector,
            entry,
            self.max_layer,
            level + 1,
            metric,
        );
        let at: usize = self.nodes.len();
        self.nodes.push(node);
        let ghost pushed = self@.nodes;
        assert(pushed =~= before.nodes.push(lone));
        let top: usize = if level < self.max_layer {
            level
        } else {
            self.max_layer
        };
        let mut n: usize = top + 1;
        let ghost goal = link_layers(
            pushed,
            dist,
            old(self).config,
            id,
            vector,
            ep,
            (top + 1) as nat,
        );
        while n > 0
            invariant
                is_metric::<V, F>(*metric),
                dist == measured(*metric),
                at < self@.nodes.len(),
                self@.nodes[at as int].vector == vector,
                self.config == old(self).config,
                self.dims == old(self).dims,
                self.entry_point == old(self).entry_point,
                self.max_layer == old(self).max_layer,
                goal == link_layers(
                    self@.nodes,
                    dist,
                    old(self).config,
                    id,
                    vector,
                    ep,
                    n as nat,
                ),
            decreases n,
        {
            let layer: usize = n - 1;
            proof {
                lemma_link_layer_same(
                    self@.nodes,
                    dist,
                    self.config,
                    id,
                    vector,
                    ep,
                    layer as nat,
                );
            }
            ep = self.link(at, id, ep, layer, metric);
            n = n - 1;
        }
        if level > self.max_layer {
            self.entry_point = Some(id);
            self.max_layer = level;
        }
        assert(self@ =~= graph_insert(before, dist, old(self).config, id, vector, level as nat));
    }

    /// Finds the at most `k` nearest nodes to a vector, the nearest first.
    pub fn search<F: Fn(&V, &V) -> u64>(&self, query: &V, k: usize, metric: &F) -> (hits: Vec<Hit>)
        requires
            is_metric::<V, F>(*metric),
            self@.nodes.len() > 0 ==> self@.entry_point is Some,
        ensures
            hits@ == graph_search(
                self@,
                from_vector(measured(*metric), *query),
                self.config.ef_search as nat,
                k as nat,
            ),
    {
        if self.nodes.len() == 0 {
            return Vec::new();
        }
        let entry: u32 = match self.entry_point {
            Some(e) => e,
            None => 0,
        };
        let ep: u32 = self.descend_layers(query, entry, self.max_layer, 1, metric);
        let ef: usize = if self.config.ef_search > k {
            self.config.ef_search
        } else {
            k
        };
        let mut start: Vec<u32> = Vec::new();
        start.push(ep);
        assert(start@ =~= seq![ep]);
        let mut hits: Vec<Hit> = self.search_layer(query, start.as_slice(), ef, 0, metric);
        if hits.len() > k {
            hits.truncate(k);
        }
        hits
    }
}

} // verus!
