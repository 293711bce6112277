//! Which neighbours a new node gets, and which a crowded one keeps.
use crate::index::hnsw::links::{
    bounded, crowded, hit_of, kept_of, law_layer_search, lemma_add_members, lemma_connect,
    lemma_descend_ok, lemma_kept, lemma_layer_hits, lemma_link_layer_ok, lemma_lower_layer,
    lemma_place_of, lemma_prune_all_ok, lemma_prune_lists, lemma_pushed_lists, lemma_pushed_ok,
    lemma_reached, lemma_without, linked, plain, reachable, reached, reached_in, sound, two_way,
};
use crate::index::hnsw::nearest::{law_descent, law_layer_search_finds_enough, no_neighbour_nearer};
use crate::index::hnsw::{
    add_hit, by_distance, chosen, descend, find, from_vector, graph_insert, hit_place, layer_hits,
    layer_search, lemma_find, lemma_find_same, lemma_link_layer_same, limit_of, link_back,
    link_layer, link_layers, list_of, lone_node, prune, prune_all, put_list, same_nodes, GraphView,
    Hit, HnswConfig, NodeView,
};
use vstd::prelude::*;

verus! {

/// The chosen among hits in order of distance are the nearest: as many as may be chosen or as there
/// are, and none that was passed over is nearer.
pub proof fn law_chosen_are_the_nearest(hits: Seq<Hit>, m: nat)
    requires
        forall|a: int, b: int|
            0 <= a < b < hits.len() ==> (#[trigger] hits[a]).1 <= (#[trigger] hits[b]).1,
    ensures
        chosen(hits, m).len() <= m,
        chosen(hits, m).len() <= hits.len(),
        chosen(hits, m).len() == m || chosen(hits, m).len() == hits.len(),
        forall|i: int| 0 <= i < chosen(hits, m).len() ==> #[trigger] chosen(hits, m)[i] == hits[i].0,
        forall|i: int, j: int|
            0 <= i < chosen(hits, m).len() && chosen(hits, m).len() <= j < hits.len() ==> (
            #[trigger] hits[i]).1 <= (#[trigger] hits[j]).1,
{
}

spec fn sorted(s: Seq<Hit>) -> bool {
    forall|a: int, b: int| 0 <= a < b < s.len() ==> (#[trigger] s[a]).1 <= (#[trigger] s[b]).1
}

proof fn lemma_add_sorted(s: Seq<Hit>, x: Hit)
    requires
        sorted(s),
    ensures
        sorted(add_hit(s, x)),
{
    lemma_place_of(s, x.1, s.len());
    let q = hit_place(s, x.1, s.len()) as int;
    let t = add_hit(s, x);
    assert forall|a: int| 0 <= a < t.len() implies (#[trigger] t[a]) == (if a < q {
        s[a]
    } else if a == q {
        x
    } else {
        s[a - 1]
    }) by {}
    assert forall|a: int, b: int| 0 <= a < b < t.len() implies (#[trigger] t[a]).1 <= (
    #[trigger] t[b]).1 by {
        if b < q {
            assert(s[a].1 <= s[b].1);
        } else if b == q {
            if a < q - 1 {
                assert(s[a].1 <= s[q - 1].1);
            }
        } else if a == q {
            assert(x.1 < s[b - 1].1);
        } else if a < q {
            if a < b - 1 {
                assert(s[a].1 <= s[b - 1].1);
            }
        } else {
            assert(s[a - 1].1 <= s[b - 1].1);
        }
    }
}

proof fn lemma_all_by_distance<V>(
    nodes: Seq<NodeView<V>>,
    dist: spec_fn(V) -> u64,
    list: Seq<u32>,
    n: nat,
)
    requires
        n <= list.len(),
        forall|i: int| 0 <= i < list.len() ==> find(nodes, #[trigger] list[i], 0) is Some,
    ensures
        ({
            let s = by_distance(nodes, dist, list, n);
            &&& s.len() == n
            &&& sorted(s)
            &&& forall|x: Hit| #[trigger]
                s.contains(x) <==> exists|i: int|
                0 <= i < n && hit_of(nodes, dist, #[trigger] list[i]) == x
        }),
    decreases n,
{
    let s = by_distance(nodes, dist, list, n);
    if n > 0 {
        lemma_all_by_distance(nodes, dist, list, (n - 1) as nat);
        let r = by_distance(nodes, dist, list, (n - 1) as nat);
        let x = hit_of(nodes, dist, list[n - 1]);
        assert(find(nodes, list[n - 1], 0) is Some);
        assert(s == add_hit(r, x));
        lemma_add_members(r, x);
        lemma_add_sorted(r, x);
        assert forall|y: Hit| #[trigger] s.contains(y) <==> exists|i: int|
            0 <= i < n && hit_of(nodes, dist, #[trigger] list[i]) == y by {
            if s.contains(y) {
                if y == x {
                    assert(hit_of(nodes, dist, list[n - 1]) == y);
                } else {
                    assert(r.contains(y));
                    let i = choose|i: int|
                        0 <= i < n - 1 && hit_of(nodes, dist, #[trigger] list[i]) == y;
                    assert(hit_of(nodes, dist, list[i]) == y);
                }
            }
            if exists|i: int| 0 <= i < n && hit_of(nodes, dist, #[trigger] list[i]) == y {
                let i = choose|i: int| 0 <= i < n && hit_of(nodes, dist, #[trigger] list[i]) == y;
                if i < n - 1 {
                    assert(hit_of(nodes, dist, list[i]) == y);
                    assert(r.contains(y));
                }
            }
        }
    }
}

/// A node with too many neighbours on a layer keeps as many as it may have, and none that it gives up
/// is nearer to it than one that it keeps. The link is given up on both sides, and no other link is.
pub proof fn law_pruning_keeps_the_nearest<V>(
    nodes: Seq<NodeView<V>>,
    dist: spec_fn(V, V) -> u64,
    id: u32,
    layer: nat,
    limit: nat,
)
    requires
        plain(nodes),
        two_way(nodes),
        crowded(nodes, id, layer, limit),
    ensures
        ({
            let d = from_vector(dist, nodes[find(nodes, id, 0)->0].vector);
            let before = list_of(nodes, id, layer)->0;
            let pruned = prune(nodes, dist, id, layer, limit);
            let after = list_of(pruned, id, layer)->0;
            &&& list_of(pruned, id, layer) is Some
            &&& after.no_duplicates()
            &&& after.len() == limit
            &&& forall|x: u32| #[trigger] after.contains(x) ==> before.contains(x)
            &&& forall|x: u32, y: u32|
                before.contains(x) && !after.contains(x) && after.contains(y) ==> (#[trigger] hit_of(
                    nodes,
                    d,
                    y,
                )).1 <= (#[trigger] hit_of(nodes, d, x)).1
            &&& forall|a: u32, b: u32, l: nat|
                (#[trigger] linked(pruned, a, b, l)) == (linked(nodes, a, b, l) && !(l == layer && ((a
                    == id && !after.contains(b)) || (b == id && !after.contains(a)))))
        }),
{
    let d = from_vector(dist, nodes[find(nodes, id, 0)->0].vector);
    let before = list_of(nodes, id, layer)->0;
    let pruned = prune(nodes, dist, id, layer, limit);
    let kept = kept_of(nodes, dist, id, layer, limit);
    let s = by_distance(nodes, d, before, before.len());
    lemma_prune_lists(nodes, dist, id, layer, limit, id, layer);
    lemma_kept(nodes, dist, id, layer, limit);
    assert forall|i: int| 0 <= i < before.len() implies find(
        nodes,
        #[trigger] before[i],
        0,
    ) is Some by {
        assert(before.contains(before[i]));
        assert(linked(nodes, id, before[i], layer));
        assert(linked(nodes, before[i], id, layer));
    }
    lemma_all_by_distance(nodes, d, before, before.len());
    law_chosen_are_the_nearest(s, limit);
    assert forall|x: u32, y: u32|
        before.contains(x) && !kept.contains(x) && kept.contains(y) implies (#[trigger] hit_of(
        nodes,
        d,
        y,
    )).1 <= (#[trigger] hit_of(nodes, d, x)).1 by {
        let i = choose|i: int| 0 <= i < before.len() && before[i] == x;
        assert(s.contains(hit_of(nodes, d, before[i])));
        let a = choose|a: int| 0 <= a < s.len() && s[a] == hit_of(nodes, d, x);
        let b = choose|b: int| 0 <= b < kept.len() && kept[b] == y;
        assert(s[b].0 == y);
        assert(s.contains(s[b]));
        let j = choose|j: int| 0 <= j < before.len() && hit_of(nodes, d, #[trigger] before[j]) == s[b];
        assert(hit_of(nodes, d, y) == s[b]);
        if a < kept.len() {
            assert(kept[a] == x);
        }
        assert(s[b].1 <= s[a].1);
    }
    assert forall|a: u32, b: u32, l: nat|
        (#[trigger] linked(pruned, a, b, l)) == (linked(nodes, a, b, l) && !(l == layer && ((a == id
            && !kept.contains(b)) || (b == id && !kept.contains(a))))) by {
        lemma_prune_lists(nodes, dist, id, layer, limit, a, l);
        if let Some(list) = list_of(nodes, a, l) {
            lemma_without(list, id);
        }
        if linked(nodes, a, b, l) {
            assert(linked(nodes, b, a, l));
        }
        if linked(nodes, b, a, l) {
            assert(linked(nodes, a, b, l));
        }
    }
}

/// A node that does not have too many neighbours keeps them all.
pub proof fn law_no_pruning_without_need<V>(
    nodes: Seq<NodeView<V>>,
    dist: spec_fn(V, V) -> u64,
    id: u32,
    layer: nat,
    limit: nat,
)
    requires
        !crowded(nodes, id, layer, limit),
    ensures
        prune(nodes, dist, id, layer, limit) == nodes,
{
}

proof fn lemma_no_pruning<V>(
    nodes: Seq<NodeView<V>>,
    dist: spec_fn(V, V) -> u64,
    others: Seq<u32>,
    layer: nat,
    limit: nat,
    n: nat,
)
    requires
        n <= others.len(),
        forall|i: int| 0 <= i < others.len() ==> !crowded(nodes, #[trigger] others[i], layer, limit),
    ensures
        prune_all(nodes, dist, others, layer, limit, n) == nodes,
    decreases n,
{
    if n > 0 {
        lemma_no_pruning(nodes, dist, others, layer, limit, (n - 1) as nat);
        law_no_pruning_without_need(nodes, dist, others[n - 1], layer, limit);
    }
}

/// How many neighbours a node may have: `m` on the layers above the lowest, `m_max` on that.
pub open spec fn allowed(config: HnswConfig, layer: nat) -> nat {
    if layer > 0 {
        config.m as nat
    } else {
        config.m_max as nat
    }
}

/// No node of a graph has more neighbours on a layer than it may have.
pub proof fn law_lists_are_bounded<V>(
    g: GraphView<V>,
    config: HnswConfig,
    id: u32,
    layer: nat,
)
    requires
        sound(g, config),
    ensures
        list_of(g.nodes, id, layer) matches Some(list) ==> list.len() <= allowed(config, layer),
{
    assert(bounded(g.nodes, config));
    let list = list_of(g.nodes, id, layer);
}

/// Every node has room for one more neighbour on the layer.
pub open spec fn room_on<V>(nodes: Seq<NodeView<V>>, config: HnswConfig, layer: nat) -> bool {
    forall|a: u32|
        (#[trigger] list_of(nodes, a, layer)) matches Some(list) ==> list.len() < allowed(
            config,
            layer,
        )
}

/// Node `id` was linked on the layer as it should: with as many nodes as it may have neighbours, as
/// the search keeps in view, or as can be reached from `start`; if the search keeps in view all that
/// can be reached, with the nearest of them; and these with it, and no other node with any.
pub open spec fn well_linked<V>(
    nodes: Seq<NodeView<V>>,
    after: Seq<NodeView<V>>,
    dist: spec_fn(V) -> u64,
    config: HnswConfig,
    id: u32,
    layer: nat,
    start: u32,
) -> bool {
    let list = list_of(after, id, layer)->0;
    let all = reached(nodes, seq![start], layer);
    &&& list_of(after, id, layer) is Some
    &&& list_of(nodes, start, layer) is Some
    &&& list.no_duplicates()
    &&& list.len() <= allowed(config, layer)
    &&& list.len() <= config.ef_construction
    &&& list.len() <= all.len()
    &&& list.len() == allowed(config, layer) || list.len() == config.ef_construction || list.len()
        == all.len()
    &&& forall|x: u32| #[trigger]
        list.contains(x) ==> x != id && reachable(nodes, seq![start], layer, x)
    &&& all.len() <= config.ef_construction ==> forall|x: u32, y: u32|
        reachable(nodes, seq![start], layer, x) && !list.contains(x) && list.contains(y) ==> (
        #[trigger] hit_of(nodes, dist, y)).1 <= (#[trigger] hit_of(nodes, dist, x)).1
    &&& forall|a: u32|
        a != id ==> (#[trigger] list_of(after, a, layer)) == (match list_of(nodes, a, layer) {
            Some(old_list) => Some(
                if list.contains(a) {
                    old_list.push(id)
                } else {
                    old_list
                },
            ),
            None => None,
        })
}

/// Linking a node on a layer where nobody has to be pruned.
proof fn lemma_link_layer_room<V>(
    nodes: Seq<NodeView<V>>,
    dist: spec_fn(V, V) -> u64,
    config: HnswConfig,
    id: u32,
    vector: V,
    ep: u32,
    layer: nat,
)
    requires
        plain(nodes),
        two_way(nodes),
        room_on(nodes, config, layer),
        list_of(nodes, id, layer) == Some(Seq::<u32>::empty()),
        list_of(nodes, ep, layer) is Some,
        ep != id,
    ensures
        well_linked(
            nodes,
            link_layer(nodes, dist, config, id, vector, ep, layer),
            from_vector(dist, vector),
            config,
            id,
            layer,
            ep,
        ),
        ({
            let after = link_layer(nodes, dist, config, id, vector, ep, layer);
            let hits = layer_hits(nodes, dist, config, vector, ep, layer);
            let list = list_of(after, id, layer)->0;
            list.len() > 0 ==> {
                &&& list.contains(hits[0].0)
                &&& hits.len() > 0
                &&& forall|y: u32| #[trigger]
                    list.contains(y) ==> hit_of(nodes, from_vector(dist, vector), hits[0].0).1
                        <= hit_of(nodes, from_vector(dist, vector), y).1
            }
        }),
{
    let d = from_vector(dist, vector);
    let ef = config.ef_construction as nat;
    let limit = limit_of(config, layer);
    let start = seq![ep];
    let hits = layer_hits(nodes, dist, config, vector, ep, layer);
    let others = chosen(hits, limit);
    lemma_layer_hits(nodes, dist, config, id, vector, ep, layer);
    let joined = link_back(put_list(nodes, id, layer, others), others, id, layer, others.len());
    lemma_connect(nodes, others, id, layer);
    let after = link_layer(nodes, dist, config, id, vector, ep, layer);
    assert forall|i: int| 0 <= i < others.len() implies !crowded(
        joined,
        #[trigger] others[i],
        layer,
        limit,
    ) by {
        let a = others[i];
        assert(others.contains(a));
        assert(list_of(nodes, a, layer) is Some);
        assert(list_of(joined, a, layer) is Some);
    }
    lemma_no_pruning(joined, dist, others, layer, limit, others.len());
    assert(after == joined);
    assert(list_of(after, id, layer) == Some(others));
    let p = |x: u32| true;
    law_layer_search(nodes, d, start, ef, layer, p);
    law_layer_search_finds_enough(nodes, d, start, ef, layer);
    law_chosen_are_the_nearest(hits, limit);
    let all = reached(nodes, start, layer);
    assert forall|x: u32| #[trigger] others.contains(x) implies x != id && reachable(
        nodes,
        start,
        layer,
        x,
    ) by {
        let k = choose|k: int| 0 <= k < others.len() && others[k] == x;
        assert(reachable(nodes, start, layer, hits[k].0));
    }
    assert forall|k: int| 0 <= k < hits.len() implies #[trigger] hits[k] == hit_of(
        nodes,
        d,
        hits[k].0,
    ) by {
        assert(find(nodes, hits[k].0, 0) is Some);
    }
    if all.len() <= ef {
        assert forall|x: u32, y: u32|
            reachable(nodes, start, layer, x) && !others.contains(x) && others.contains(y) implies (
        #[trigger] hit_of(nodes, d, y)).1 <= (#[trigger] hit_of(nodes, d, x)).1 by {
            assert(hits.contains(hit_of(nodes, d, x)));
            let a = choose|a: int| 0 <= a < hits.len() && hits[a] == hit_of(nodes, d, x);
            let b = choose|b: int| 0 <= b < others.len() && others[b] == y;
            if a < others.len() {
                assert(others[a] == x);
            }
            assert(hits[b].1 <= hits[a].1);
        }
    }
    if others.len() > 0 {
        assert(others[0] == hits[0].0);
        assert forall|y: u32| #[trigger] others.contains(y) implies hit_of(nodes, d, hits[0].0).1
            <= hit_of(nodes, d, y).1 by {
            let b = choose|b: int| 0 <= b < others.len() && others[b] == y;
            assert(hits[b] == hit_of(nodes, d, hits[b].0));
            assert(hits[0] == hit_of(nodes, d, hits[0].0));
            if b > 0 {
                assert(hits[0].1 <= hits[b].1);
            }
        }
    }
}

/// The same nodes with the same neighbours on a layer are reached alike.
proof fn lemma_reached_alike<V>(
    a: Seq<NodeView<V>>,
    b: Seq<NodeView<V>>,
    start: Seq<u32>,
    layer: nat,
    id: u32,
    n: nat,
)
    requires
        forall|x: u32| (#[trigger] find(a, x, 0)) is Some <==> find(b, x, 0) is Some,
        forall|x: u32| #[trigger] list_of(a, x, layer) == list_of(b, x, layer),
    ensures
        reached_in(a, start, layer, id, n) == reached_in(b, start, layer, id, n),
    decreases n,
{
    assert(find(a, id, 0) is Some <==> find(b, id, 0) is Some);
    if n > 0 {
        assert forall|x: u32| #[trigger] linked(a, x, id, layer) == linked(b, x, id, layer) by {
            assert(list_of(a, x, layer) == list_of(b, x, layer));
        }
        if reached_in(a, start, layer, id, n) && !start.contains(id) {
            let x = choose|x: u32| #[trigger]
                linked(a, x, id, layer) && reached_in(a, start, layer, x, (n - 1) as nat);
            lemma_reached_alike(a, b, start, layer, x, (n - 1) as nat);
            assert(linked(b, x, id, layer));
        }
        if reached_in(b, start, layer, id, n) && !start.contains(id) {
            let x = choose|x: u32| #[trigger]
                linked(b, x, id, layer) && reached_in(b, start, layer, x, (n - 1) as nat);
            lemma_reached_alike(a, b, start, layer, x, (n - 1) as nat);
            assert(linked(a, x, id, layer));
        }
    }
}

proof fn lemma_alike<V>(
    a: Seq<NodeView<V>>,
    b: Seq<NodeView<V>>,
    dist: spec_fn(V) -> u64,
    start: Seq<u32>,
    layer: nat,
)
    requires
        same_nodes(a, b),
        forall|x: u32| #[trigger] list_of(a, x, layer) == list_of(b, x, layer),
    ensures
        forall|x: u32| #[trigger]
            reachable(a, start, layer, x) == reachable(b, start, layer, x),
        reached(a, start, layer) == reached(b, start, layer),
        forall|x: u32|
            find(a, x, 0) is Some ==> #[trigger] hit_of(a, dist, x) == hit_of(b, dist, x),
{
    assert forall|x: u32| (#[trigger] find(a, x, 0)) is Some <==> find(b, x, 0) is Some by {
        lemma_find_same(a, b, x, 0);
    }
    assert forall|x: u32| #[trigger] reachable(a, start, layer, x) == reachable(
        b,
        start,
        layer,
        x,
    ) by {
        if reachable(a, start, layer, x) {
            let n = choose|n: nat| reached_in(a, start, layer, x, n);
            lemma_reached_alike(a, b, start, layer, x, n);
            assert(reached_in(b, start, layer, x, n));
        }
        if reachable(b, start, layer, x) {
            let n = choose|n: nat| reached_in(b, start, layer, x, n);
            lemma_reached_alike(a, b, start, layer, x, n);
            assert(reached_in(a, start, layer, x, n));
        }
    }
    lemma_reached(a, start, layer);
    lemma_reached(b, start, layer);
    assert(reached(a, start, layer) =~= reached(b, start, layer)) by {
        assert forall|x: u32| reached(a, start, layer).contains(x) == reached(
            b,
            start,
            layer,
        ).contains(x) by {
            assert(reachable(a, start, layer, x) == reachable(b, start, layer, x));
        }
    }
    assert forall|x: u32| find(a, x, 0) is Some implies #[trigger] hit_of(a, dist, x) == hit_of(
        b,
        dist,
        x,
    ) by {
        lemma_find_same(a, b, x, 0);
        lemma_find(a, x, 0);
    }
}

proof fn lemma_well_linked_alike<V>(
    a: Seq<NodeView<V>>,
    b: Seq<NodeView<V>>,
    after: Seq<NodeView<V>>,
    dist: spec_fn(V) -> u64,
    config: HnswConfig,
    id: u32,
    layer: nat,
    start: u32,
)
    requires
        same_nodes(a, b),
        forall|x: u32| #[trigger] list_of(a, x, layer) == list_of(b, x, layer),
        well_linked(b, after, dist, config, id, layer, start),
    ensures
        well_linked(a, after, dist, config, id, layer, start),
{
    let from = seq![start];
    lemma_alike(a, b, dist, from, layer);
    let list = list_of(after, id, layer)->0;
    assert(list_of(a, start, layer) == list_of(b, start, layer));
    assert forall|x: u32| #[trigger] list.contains(x) implies x != id && reachable(
        a,
        from,
        layer,
        x,
    ) by {
        assert(reachable(b, from, layer, x));
        assert(reachable(a, from, layer, x));
    }
    if reached(a, from, layer).len() <= config.ef_construction {
        assert forall|x: u32, y: u32|
            reachable(a, from, layer, x) && !list.contains(x) && list.contains(y) implies (
        #[trigger] hit_of(a, dist, y)).1 <= (#[trigger] hit_of(a, dist, x)).1 by {
            assert(reachable(b, from, layer, x));
            assert(reachable(a, from, layer, y));
            assert(find(a, x, 0) is Some && find(a, y, 0) is Some);
            assert(hit_of(b, dist, y).1 <= hit_of(b, dist, x).1);
        }
    }
    assert forall|x: u32| x != id implies (#[trigger] list_of(after, x, layer)) == (match list_of(
        a,
        x,
        layer,
    ) {
        Some(old_list) => Some(
            if list.contains(x) {
                old_list.push(id)
            } else {
                old_list
            },
        ),
        None => None,
    }) by {
        assert(list_of(a, x, layer) == list_of(b, x, layer));
    }
}

/// Where the search on a lower layer starts: at the nearest neighbour that the node got on the layer
/// above.
pub open spec fn starts_nearest<V>(
    nodes: Seq<NodeView<V>>,
    after: Seq<NodeView<V>>,
    dist: spec_fn(V) -> u64,
    id: u32,
    above: nat,
    start: u32,
) -> bool {
    let list = list_of(after, id, above)->0;
    list.len() > 0 ==> list.contains(start) && forall|y: u32| #[trigger]
        list.contains(y) ==> hit_of(nodes, dist, start).1 <= hit_of(nodes, dist, y).1
}

proof fn lemma_link_layers_room<V>(
    nodes: Seq<NodeView<V>>,
    dist: spec_fn(V, V) -> u64,
    config: HnswConfig,
    id: u32,
    vector: V,
    ep: u32,
    n: nat,
) -> (starts: Seq<u32>)
    requires
        plain(nodes),
        two_way(nodes),
        bounded(nodes, config),
        forall|l: nat| l < n ==> #[trigger] room_on(nodes, config, l),
        forall|l: nat| l < n ==> #[trigger] list_of(nodes, id, l) == Some(Seq::<u32>::empty()),
        n > 0 ==> list_of(nodes, ep, (n - 1) as nat) is Some,
        ep != id,
    ensures
        starts.len() == n,
        n > 0 ==> starts[n - 1] == ep,
        ({
            let after = link_layers(nodes, dist, config, id, vector, ep, n);
            let d = from_vector(dist, vector);
            &&& forall|l: nat|
                l < n ==> well_linked(nodes, after, d, config, id, l, #[trigger] starts[l as int])
            &&& forall|l: nat|
                l + 1 < n ==> starts_nearest(
                    nodes,
                    after,
                    d,
                    id,
                    l + 1,
                    #[trigger] starts[l as int],
                )
            &&& forall|a: u32, l: nat|
                l >= n ==> #[trigger] list_of(after, a, l) == list_of(nodes, a, l)
            &&& same_nodes(nodes, after)
        }),
    decreases n,
{
    let after = link_layers(nodes, dist, config, id, vector, ep, n);
    let d = from_vector(dist, vector);
    if n == 0 {
        assert(same_nodes(nodes, nodes));
        Seq::empty()
    } else {
        let layer = (n - 1) as nat;
        let hits = layer_hits(nodes, dist, config, vector, ep, layer);
        assert(room_on(nodes, config, layer));
        assert(list_of(nodes, id, layer) == Some(Seq::<u32>::empty()));
        lemma_layer_hits(nodes, dist, config, id, vector, ep, layer);
        lemma_link_layer_ok(nodes, dist, config, id, vector, ep, layer);
        lemma_link_layer_same(nodes, dist, config, id, vector, ep, layer);
        lemma_link_layer_room(nodes, dist, config, id, vector, ep, layer);
        let now = link_layer(nodes, dist, config, id, vector, ep, layer);
        let next = if hits.len() > 0 {
            hits[0].0
        } else {
            ep
        };
        assert(next != id && list_of(nodes, next, layer) is Some);
        assert forall|a: u32, l: nat| l != layer implies #[trigger] list_of(now, a, l) == list_of(
            nodes,
            a,
            l,
        ) by {
            let m = list_of(nodes, a, l);
        }
        assert forall|l: nat| l < layer implies #[trigger] list_of(now, id, l) == Some(
            Seq::<u32>::empty(),
        ) by {
            assert(list_of(nodes, id, l) == Some(Seq::<u32>::empty()));
        }
        assert forall|l: nat| l < layer implies #[trigger] room_on(now, config, l) by {
            assert(room_on(nodes, config, l));
            assert forall|a: u32|
                (#[trigger] list_of(now, a, l)) matches Some(list) ==> list.len() < allowed(
                    config,
                    l,
                ) by {
                assert(list_of(nodes, a, l) == list_of(now, a, l));
            }
        }
        if layer > 0 {
            let below = (layer - 1) as nat;
            lemma_lower_layer(nodes, next, layer, below);
            assert(list_of(now, next, below) == list_of(nodes, next, below));
        }
        let rest = lemma_link_layers_room(now, dist, config, id, vector, next, layer);
        let starts = rest.push(ep);
        lemma_same_chain(nodes, now, after);
        assert forall|l: nat| l < n implies well_linked(
            nodes,
            after,
            d,
            config,
            id,
            l,
            #[trigger] starts[l as int],
        ) by {
            if l == layer {
                assert forall|a: u32| #[trigger] list_of(after, a, layer) == list_of(
                    now,
                    a,
                    layer,
                ) by {}
                assert(well_linked(nodes, now, d, config, id, layer, ep));
                assert(well_linked(nodes, after, d, config, id, layer, ep));
            } else {
                assert(starts[l as int] == rest[l as int]);
                assert(well_linked(now, after, d, config, id, l, rest[l as int]));
                assert forall|x: u32| #[trigger] list_of(nodes, x, l) == list_of(now, x, l) by {
                    assert(list_of(now, x, l) == list_of(nodes, x, l));
                }
                lemma_well_linked_alike(nodes, now, after, d, config, id, l, rest[l as int]);
            }
        }
        assert forall|l: nat| l + 1 < n implies starts_nearest(
            nodes,
            after,
            d,
            id,
            l + 1,
            #[trigger] starts[l as int],
        ) by {
            assert(starts[l as int] == rest[l as int]);
            if l + 1 == layer {
                assert(rest[l as int] == next);
                assert(list_of(after, id, layer) == list_of(now, id, layer));
            } else {
                assert(starts_nearest(now, after, d, id, l + 1, rest[l as int]));
                let list = list_of(after, id, l + 1)->0;
                if list.len() > 0 {
                    assert(starts[l as int + 1] == rest[l as int + 1]);
                    let up = (l + 1) as nat;
                    assert(well_linked(now, after, d, config, id, up, rest[up as int]));
                    assert forall|x: u32| #[trigger] list_of(nodes, x, up) == list_of(
                        now,
                        x,
                        up,
                    ) by {
                        assert(list_of(now, x, up) == list_of(nodes, x, up));
                    }
                    lemma_alike(nodes, now, d, seq![rest[up as int]], up);
                    let s = rest[l as int];
                    assert forall|y: u32| #[trigger] list.contains(y) implies hit_of(nodes, d, s).1
                        <= hit_of(nodes, d, y).1 by {
                        assert(reachable(now, seq![rest[up as int]], up, y));
                        assert(reachable(now, seq![rest[up as int]], up, s));
                        assert(reachable(nodes, seq![rest[up as int]], up, y));
                        assert(reachable(nodes, seq![rest[up as int]], up, s));
                        assert(find(nodes, y, 0) is Some && find(nodes, s, 0) is Some);
                        assert(hit_of(now, d, s).1 <= hit_of(now, d, y).1);
                    }
                }
            }
        }
        assert forall|a: u32, l: nat| l >= n implies #[trigger] list_of(after, a, l) == list_of(
            nodes,
            a,
            l,
        ) by {
            assert(list_of(now, a, l) == list_of(nodes, a, l));
        }
        starts
    }
}

proof fn lemma_same_chain<V>(a: Seq<NodeView<V>>, b: Seq<NodeView<V>>, c: Seq<NodeView<V>>)
    requires
        same_nodes(a, b),
        same_nodes(b, c),
    ensures
        same_nodes(a, c),
{
    assert forall|i: int| 0 <= i < a.len() implies (#[trigger] a[i]).id == c[i].id && a[i].vector
        == c[i].vector && a[i].layers.len() == c[i].layers.len() by {
        assert(b[i].id == c[i].id);
    }
}

/// What an insertion into a graph where every node has room for one more neighbour does: on each layer
/// that the new node shares with the graph it is linked as `well_linked` says, from the top down, each
/// search but the first starting at the nearest neighbour found on the layer above; on no other layer
/// does any node get or lose a neighbour. The first search starts no farther from the new node than the
/// entry point is, nor than its neighbours on the layer above. The new node becomes the entry point
/// where it goes above the top layer.
pub proof fn law_insertion_links_the_nearest<V>(
    g: GraphView<V>,
    dist: spec_fn(V, V) -> u64,
    config: HnswConfig,
    id: u32,
    vector: V,
    level: nat,
) -> (starts: Seq<u32>)
    requires
        sound(g, config),
        g.nodes.len() > 0,
        find(g.nodes, id, 0) is None,
        forall|l: nat| #[trigger] room_on(g.nodes, config, l),
        config.m > 0,
        config.m_max > 0,
    ensures
        ({
            let after = graph_insert(g, dist, config, id, vector, level);
            let with = g.nodes.push(lone_node(id, vector, level));
            let d = from_vector(dist, vector);
            &&& starts.len() == vstd::math::min(level as int, g.max_layer as int) + 1
            &&& same_nodes(with, after.nodes)
            &&& forall|l: nat|
                l < starts.len() ==> well_linked(
                    with,
                    after.nodes,
                    d,
                    config,
                    id,
                    l,
                    #[trigger] starts[l as int],
                )
            &&& forall|l: nat|
                l + 1 < starts.len() ==> starts_nearest(
                    with,
                    after.nodes,
                    d,
                    id,
                    l + 1,
                    #[trigger] starts[l as int],
                )
            &&& forall|a: u32, l: nat|
                l >= starts.len() ==> #[trigger] list_of(after.nodes, a, l) == (if a == id {
                    if l <= level {
                        Some(Seq::<u32>::empty())
                    } else {
                        None
                    }
                } else {
                    list_of(g.nodes, a, l)
                })
            &&& after.entry_point == (if level > g.max_layer {
                Some(id)
            } else {
                g.entry_point
            })
            &&& after.max_layer == vstd::math::max(level as int, g.max_layer as int)
            &&& hit_of(g.nodes, d, starts.last()).1 <= hit_of(g.nodes, d, g.entry_point->0).1
            &&& g.max_layer > level ==> no_neighbour_nearer(g.nodes, d, starts.last(), level + 1)
            &&& g.max_layer <= level ==> g.entry_point == Some(starts.last())
        }),
{
    let after = graph_insert(g, dist, config, id, vector, level);
    let with = g.nodes.push(lone_node(id, vector, level));
    let d = from_vector(dist, vector);
    lemma_pushed_ok(g.nodes, config, id, vector, level);
    let entry = g.entry_point->0;
    let top = vstd::math::min(level as int, g.max_layer as int) as nat;
    let ep = descend(g.nodes, d, entry, g.max_layer as int, 1int + level);
    lemma_descend_ok(g.nodes, d, entry, g.max_layer as int, 1int + level, top);
    assert(find(g.nodes, entry, 0) is Some);
    law_descent(g.nodes, d, entry, g.max_layer as int, 1int + level);
    lemma_pushed_lists(g.nodes, id, vector, level, ep, top);
    assert(ep != id);
    assert forall|l: nat| l < top + 1 implies #[trigger] list_of(with, id, l) == Some(
        Seq::<u32>::empty(),
    ) by {
        lemma_pushed_lists(g.nodes, id, vector, level, id, l);
    }
    assert forall|l: nat| l < top + 1 implies #[trigger] room_on(with, config, l) by {
        assert(room_on(g.nodes, config, l));
        assert forall|a: u32|
            (#[trigger] list_of(with, a, l)) matches Some(list) ==> list.len() < allowed(
                config,
                l,
            ) by {
            lemma_pushed_lists(g.nodes, id, vector, level, a, l);
            let m = list_of(g.nodes, a, l);
        }
    }
    let starts = lemma_link_layers_room(with, dist, config, id, vector, ep, top + 1);
    assert forall|a: u32, l: nat| l >= starts.len() implies #[trigger] list_of(after.nodes, a, l)
        == (if a == id {
        if l <= level {
            Some(Seq::<u32>::empty())
        } else {
            None
        }
    } else {
        list_of(g.nodes, a, l)
    }) by {
        lemma_pushed_lists(g.nodes, id, vector, level, a, l);
        assert(list_of(after.nodes, a, l) == list_of(with, a, l));
    }
    starts
}

/// Pruning takes no link between two nodes that do not have too many neighbours.
proof fn lemma_pruning_spares<V>(
    nodes: Seq<NodeView<V>>,
    dist: spec_fn(V, V) -> u64,
    others: Seq<u32>,
    layer: nat,
    limit: nat,
    n: nat,
    a: u32,
    b: u32,
)
    requires
        plain(nodes),
        two_way(nodes),
        n <= others.len(),
        linked(nodes, a, b, layer),
        !crowded(nodes, a, layer, limit),
        !crowded(nodes, b, layer, limit),
    ensures
        linked(prune_all(nodes, dist, others, layer, limit, n), a, b, layer),
    decreases n,
{
    if n > 0 {
        lemma_pruning_spares(nodes, dist, others, layer, limit, (n - 1) as nat, a, b);
        lemma_prune_all_ok(nodes, dist, others, layer, limit, (n - 1) as nat);
        let v = prune_all(nodes, dist, others, layer, limit, (n - 1) as nat);
        let c = others[n - 1];
        if crowded(v, c, layer, limit) {
            let now = list_of(v, c, layer);
            assert(crowded(nodes, c, layer, limit));
            law_pruning_keeps_the_nearest(v, dist, c, layer, limit);
            assert(linked(prune(v, dist, c, layer, limit), a, b, layer));
        } else {
            law_no_pruning_without_need(v, dist, c, layer, limit);
        }
    }
}

/// A node has room for one more neighbour on the layer.
pub open spec fn has_room<V>(
    nodes: Seq<NodeView<V>>,
    config: HnswConfig,
    id: u32,
    layer: nat,
) -> bool {
    list_of(nodes, id, layer) matches Some(list) && list.len() < allowed(config, layer)
}

/// On a layer the new node is linked, in both directions, with each of the nearest hits that has room,
/// as many as it may have neighbours; and a link between two nodes that have room is never lost,
/// whoever else is pruned.
pub proof fn law_room_is_used<V>(
    nodes: Seq<NodeView<V>>,
    dist: spec_fn(V, V) -> u64,
    config: HnswConfig,
    id: u32,
    vector: V,
    ep: u32,
    layer: nat,
    k: int,
    a: u32,
    b: u32,
)
    requires
        plain(nodes),
        two_way(nodes),
        bounded(nodes, config),
        list_of(nodes, id, layer) == Some(Seq::<u32>::empty()),
        list_of(nodes, ep, layer) is Some,
        ep != id,
    ensures
        ({
            let hits = layer_search(
                nodes,
                from_vector(dist, vector),
                seq![ep],
                config.ef_construction as nat,
                layer,
            );
            let after = link_layer(nodes, dist, config, id, vector, ep, layer);
            &&& 0 <= k < hits.len() && k < allowed(config, layer) && has_room(
                nodes,
                config,
                hits[k].0,
                layer,
            ) ==> linked(after, id, hits[k].0, layer) && linked(after, hits[k].0, id, layer)
            &&& linked(nodes, a, b, layer) && has_room(nodes, config, a, layer) && has_room(
                nodes,
                config,
                b,
                layer,
            ) ==> linked(after, a, b, layer)
        }),
{
    let limit = limit_of(config, layer);
    let hits = layer_hits(nodes, dist, config, vector, ep, layer);
    let others = chosen(hits, limit);
    lemma_layer_hits(nodes, dist, config, id, vector, ep, layer);
    let joined = link_back(put_list(nodes, id, layer, others), others, id, layer, others.len());
    lemma_connect(nodes, others, id, layer);
    let after = prune_all(joined, dist, others, layer, limit, others.len());
    assert(list_of(joined, id, layer) == Some(others));
    assert(!crowded(joined, id, layer, limit));
    if 0 <= k < hits.len() && k < limit && has_room(nodes, config, hits[k].0, layer) {
        let x = hits[k].0;
        assert(others[k] == x);
        assert(others.contains(x));
        let list = list_of(joined, x, layer);
        assert(!crowded(joined, x, layer, limit));
        assert(linked(joined, id, x, layer));
        assert(linked(joined, x, id, layer));
        lemma_pruning_spares(joined, dist, others, layer, limit, others.len(), id, x);
        lemma_pruning_spares(joined, dist, others, layer, limit, others.len(), x, id);
    }
    if linked(nodes, a, b, layer) && has_room(nodes, config, a, layer) && has_room(
        nodes,
        config,
        b,
        layer,
    ) {
        let la = list_of(joined, a, layer);
        let lb = list_of(joined, b, layer);
        assert(a != id) by {
            if a == id {
                assert(linked(nodes, id, b, layer));
            }
        }
        assert(linked(joined, a, b, layer)) by {
            let old_list = list_of(nodes, a, layer)->0;
            let j = choose|j: int| 0 <= j < old_list.len() && old_list[j] == b;
            assert(la->0[j] == b);
        }
        assert(!crowded(joined, a, layer, limit));
        assert(!crowded(joined, b, layer, limit));
        lemma_pruning_spares(joined, dist, others, layer, limit, others.len(), a, b);
    }
}

} // verus!
