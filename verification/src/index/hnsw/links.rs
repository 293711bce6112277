//! What searches find and what insertions keep: hits in order, links in both directions, bounded
//! neighbour lists.
use crate::index::hnsw::{
    add_hit, by_distance, chosen, cut, descend, find, from_vector, graph_insert, graph_search,
    hit_ids, hit_place, layer_hits, layer_search, lemma_find, lemma_find_same, lemma_hit_place,
    lemma_link_layer_same, lemma_put_same, lemma_same_trans, lemma_step_left, limit_of, link_back,
    link_layer, link_layers, list_of, lone_node, other_than, prune, prune_all, put_list, same_nodes,
    unlink, walk_left, walk_list, walk_look, walk_over, walk_run, walk_start, walk_step, GraphView,
    Hit, HnswConfig, NodeView, Walk,
};
use vstd::prelude::*;

verus! {

// Hits.

/// Hits in order of distance, without repetitions, each a node with its distance.
pub open spec fn good_hits<V>(
    nodes: Seq<NodeView<V>>,
    dist: spec_fn(V) -> u64,
    hits: Seq<Hit>,
) -> bool {
    &&& forall|a: int, b: int|
        0 <= a < b < hits.len() ==> (#[trigger] hits[a]).1 <= (#[trigger] hits[b]).1 && hits[a].0
            != hits[b].0
    &&& forall|a: int|
        0 <= a < hits.len() ==> {
            let h = #[trigger] hits[a];
            &&& find(nodes, h.0, 0) is Some
            &&& dist(nodes[find(nodes, h.0, 0)->0].vector) == h.1
        }
}

/// All hits are among `ids`, and satisfy `p`.
pub open spec fn hits_in(hits: Seq<Hit>, ids: Set<u32>, p: spec_fn(u32) -> bool) -> bool {
    forall|a: int| 0 <= a < hits.len() ==> ids.contains((#[trigger] hits[a]).0) && p(hits[a].0)
}

pub proof fn lemma_place_of(s: Seq<Hit>, d: u64, n: nat)
    requires
        n <= s.len(),
    ensures
        ({
            let p = hit_place(s, d, n);
            &&& p <= n
            &&& forall|k: int| p <= k < n ==> d < (#[trigger] s[k]).1
            &&& p > 0 ==> s[p - 1].1 <= d
        }),
    decreases n,
{
    if n > 0 {
        lemma_place_of(s, d, (n - 1) as nat);
    }
}

pub proof fn lemma_add_good<V>(
    nodes: Seq<NodeView<V>>,
    dist: spec_fn(V) -> u64,
    s: Seq<Hit>,
    x: Hit,
    ids: Set<u32>,
    p: spec_fn(u32) -> bool,
)
    requires
        good_hits(nodes, dist, s),
        hits_in(s, ids, p),
        !ids.contains(x.0),
        p(x.0),
        find(nodes, x.0, 0) is Some,
        dist(nodes[find(nodes, x.0, 0)->0].vector) == x.1,
    ensures
        good_hits(nodes, dist, add_hit(s, x)),
        hits_in(add_hit(s, x), ids.insert(x.0), p),
        add_hit(s, x).len() == s.len() + 1,
{
    lemma_place_of(s, x.1, s.len());
    let q = hit_place(s, x.1, s.len()) as int;
    let t = add_hit(s, x);
    assert forall|a: int| 0 <= a < t.len() implies (#[trigger] t[a]) == (if a < q {
        s[a]
    } else if a == q {
        x
    } else {
        s[a - 1]
    }) by {}
    assert forall|a: int, b: int| 0 <= a < b < t.len() implies (#[trigger] t[a]).1 <= (
    #[trigger] t[b]).1 && t[a].0 != t[b].0 by {
        if a < q && b == q {
            assert(s[a].1 <= s[q - 1].1);
            assert(ids.contains(s[a].0));
        } else if a == q {
            assert(x.1 < s[b - 1].1);
            assert(ids.contains(s[b - 1].0));
        } else {
            let a0 = if a < q {
                a
            } else {
                a - 1
            };
            let b0 = if b < q {
                b
            } else {
                b - 1
            };
            assert(s[a0].0 != s[b0].0);
        }
    }
    assert forall|a: int| 0 <= a < t.len() implies ids.insert(x.0).contains((#[trigger] t[a]).0)
        && p(t[a].0) by {
        if a < q {
            assert(ids.contains(s[a].0));
        } else if a > q {
            assert(ids.contains(s[a - 1].0));
        }
    }
    assert forall|a: int| 0 <= a < t.len() implies {
        let h = #[trigger] t[a];
        &&& find(nodes, h.0, 0) is Some
        &&& dist(nodes[find(nodes, h.0, 0)->0].vector) == h.1
    } by {
        if a < q {
            assert(find(nodes, s[a].0, 0) is Some);
        } else if a > q {
            assert(find(nodes, s[a - 1].0, 0) is Some);
        }
    }
}

pub proof fn lemma_cut_good<V>(
    nodes: Seq<NodeView<V>>,
    dist: spec_fn(V) -> u64,
    s: Seq<Hit>,
    n: nat,
    ids: Set<u32>,
    p: spec_fn(u32) -> bool,
)
    requires
        good_hits(nodes, dist, s),
        hits_in(s, ids, p),
    ensures
        good_hits(nodes, dist, cut(s, n)),
        hits_in(cut(s, n), ids, p),
        cut(s, n).len() <= n,
{
    let t = cut(s, n);
    assert forall|a: int| 0 <= a < t.len() implies #[trigger] t[a] == s[a] by {}
}

proof fn lemma_in_more(s: Seq<Hit>, ids: Set<u32>, id: u32, p: spec_fn(u32) -> bool)
    requires
        hits_in(s, ids, p),
    ensures
        hits_in(s, ids.insert(id), p),
{
}

/// What a search keeps: its results are good hits among the visited nodes and at most `ef`, its
/// candidates are visited nodes, and all of them satisfy `p`.
pub open spec fn walk_ok<V>(
    nodes: Seq<NodeView<V>>,
    dist: spec_fn(V) -> u64,
    ef: nat,
    w: Walk,
    p: spec_fn(u32) -> bool,
) -> bool {
    &&& good_hits(nodes, dist, w.results)
    &&& hits_in(w.results, w.visited, p)
    &&& hits_in(w.candidates, w.visited, p)
    &&& w.results.len() <= ef
}

proof fn lemma_candidates_add(s: Seq<Hit>, x: Hit, ids: Set<u32>, p: spec_fn(u32) -> bool)
    requires
        hits_in(s, ids, p),
        p(x.0),
    ensures
        hits_in(add_hit(s, x), ids.insert(x.0), p),
{
    lemma_hit_place(s, x.1, s.len());
    let q = hit_place(s, x.1, s.len()) as int;
    let t = add_hit(s, x);
    assert forall|a: int| 0 <= a < t.len() implies ids.insert(x.0).contains((#[trigger] t[a]).0)
        && p(t[a].0) by {
        if a < q {
            assert(t[a] == s[a]);
        } else if a > q {
            assert(t[a] == s[a - 1]);
        }
    }
}

pub proof fn lemma_start_ok<V>(
    nodes: Seq<NodeView<V>>,
    dist: spec_fn(V) -> u64,
    entry_points: Seq<u32>,
    n: nat,
    p: spec_fn(u32) -> bool,
)
    requires
        n <= entry_points.len(),
        forall|i: int| 0 <= i < entry_points.len() ==> p(#[trigger] entry_points[i]),
    ensures
        ({
            let w = walk_start(nodes, dist, entry_points, n);
            &&& good_hits(nodes, dist, w.results)
            &&& hits_in(w.results, w.visited, p)
            &&& hits_in(w.candidates, w.visited, p)
        }),
    decreases n,
{
    if n > 0 {
        lemma_start_ok(nodes, dist, entry_points, (n - 1) as nat, p);
        let w = walk_start(nodes, dist, entry_points, (n - 1) as nat);
        let id = entry_points[n - 1];
        if !w.visited.contains(id) {
            if let Some(i) = find(nodes, id, 0) {
                let hit = (id, dist(nodes[i].vector));
                lemma_add_good(nodes, dist, w.results, hit, w.visited, p);
                lemma_candidates_add(w.candidates, hit, w.visited, p);
            }
        }
    }
}

pub proof fn lemma_look_ok<V>(
    nodes: Seq<NodeView<V>>,
    dist: spec_fn(V) -> u64,
    ef: nat,
    w: Walk,
    id: u32,
    p: spec_fn(u32) -> bool,
)
    requires
        walk_ok(nodes, dist, ef, w, p),
        p(id),
    ensures
        walk_ok(nodes, dist, ef, walk_look(nodes, dist, ef, w, id), p),
        w.results.len() > 0 && ef > 0 ==> walk_look(nodes, dist, ef, w, id).results.len() > 0,
{
    if !w.visited.contains(id) {
        lemma_in_more(w.results, w.visited, id, p);
        lemma_in_more(w.candidates, w.visited, id, p);
        if let Some(i) = find(nodes, id, 0) {
            let hit = (id, dist(nodes[i].vector));
            lemma_add_good(nodes, dist, w.results, hit, w.visited, p);
            lemma_candidates_add(w.candidates, hit, w.visited, p);
            lemma_cut_good(
                nodes,
                dist,
                add_hit(w.results, hit),
                ef,
                w.visited.insert(id),
                p,
            );
        }
    }
}

proof fn lemma_list_ok<V>(
    nodes: Seq<NodeView<V>>,
    dist: spec_fn(V) -> u64,
    ef: nat,
    w: Walk,
    list: Seq<u32>,
    n: nat,
    p: spec_fn(u32) -> bool,
)
    requires
        walk_ok(nodes, dist, ef, w, p),
        n <= list.len(),
        forall|i: int| 0 <= i < list.len() ==> p(#[trigger] list[i]),
    ensures
        walk_ok(nodes, dist, ef, walk_list(nodes, dist, ef, w, list, n), p),
        w.results.len() > 0 && ef > 0 ==> walk_list(
            nodes,
            dist,
            ef,
            w,
            list,
            n,
        ).results.len() > 0,
    decreases n,
{
    if n > 0 {
        lemma_list_ok(nodes, dist, ef, w, list, (n - 1) as nat, p);
        let v = walk_list(nodes, dist, ef, w, list, (n - 1) as nat);
        lemma_look_ok(nodes, dist, ef, v, list[n - 1], p);
    }
}

/// The neighbours on a layer of nodes that satisfy `p` satisfy it.
pub open spec fn closed_under<V>(
    nodes: Seq<NodeView<V>>,
    layer: nat,
    p: spec_fn(u32) -> bool,
) -> bool {
    forall|a: u32, k: int|
        p(a) && list_of(nodes, a, layer) is Some && 0 <= k < list_of(nodes, a, layer)->0.len()
            ==> p(#[trigger] list_of(nodes, a, layer)->0[k])
}

pub proof fn lemma_run_ok<V>(
    nodes: Seq<NodeView<V>>,
    dist: spec_fn(V) -> u64,
    ef: nat,
    layer: nat,
    w: Walk,
    p: spec_fn(u32) -> bool,
)
    requires
        walk_ok(nodes, dist, ef, w, p),
        closed_under(nodes, layer, p),
    ensures
        walk_ok(nodes, dist, ef, walk_run(nodes, dist, ef, layer, w), p),
        w.results.len() > 0 && ef > 0 ==> walk_run(nodes, dist, ef, layer, w).results.len() > 0,
    decreases walk_left(nodes, w),
{
    if !(w.candidates.len() == 0 || walk_over(w, ef)) {
        lemma_step_left(nodes, dist, ef, layer, w);
        let id = w.candidates[0].0;
        let v = Walk { candidates: w.candidates.skip(1), ..w };
        assert(hits_in(v.candidates, v.visited, p)) by {
            assert forall|a: int| 0 <= a < v.candidates.len() implies v.visited.contains(
                (#[trigger] v.candidates[a]).0,
            ) && p(v.candidates[a].0) by {
                assert(v.candidates[a] == w.candidates[a + 1]);
            }
        }
        assert(p(id)) by {
            assert(w.visited.contains(w.candidates[0].0));
        }
        if let Some(i) = find(nodes, id, 0) {
            if layer < nodes[i].layers.len() {
                let list = nodes[i].layers[layer as int];
                assert(list_of(nodes, id, layer) == Some(list));
                assert forall|k: int| 0 <= k < list.len() implies p(#[trigger] list[k]) by {
                    assert(p(list_of(nodes, id, layer)->0[k]));
                }
                lemma_list_ok(nodes, dist, ef, v, list, list.len(), p);
            }
        }
        lemma_run_ok(nodes, dist, ef, layer, walk_step(nodes, dist, ef, layer, w), p);
    }
}

/// What a search on a layer finds: at most `ef` nodes, in order of distance, none twice, each with
/// its distance; and something, if it starts at a node and may find any. What holds of the entry
/// points and passes from nodes to their neighbours holds of the hits. If `ef` is at least the number
/// of nodes that can be reached, all of them are found.
pub proof fn law_layer_search<V>(
    nodes: Seq<NodeView<V>>,
    dist: spec_fn(V) -> u64,
    entry_points: Seq<u32>,
    ef: nat,
    layer: nat,
    p: spec_fn(u32) -> bool,
)
    requires
        forall|i: int| 0 <= i < entry_points.len() ==> p(#[trigger] entry_points[i]),
        closed_under(nodes, layer, p),
    ensures
        ({
            let hits = layer_search(nodes, dist, entry_points, ef, layer);
            &&& good_hits(nodes, dist, hits)
            &&& hits.len() <= ef
            &&& forall|a: int| 0 <= a < hits.len() ==> p((#[trigger] hits[a]).0)
            &&& ef > 0 && entry_points.len() > 0 && find(nodes, entry_points[0], 0) is Some
                ==> hits.len() > 0
            &&& ef >= reached(nodes, entry_points, layer).len() ==> forall|id: u32| #[trigger]
                reachable(nodes, entry_points, layer, id) ==> hits.contains(
                    hit_of(nodes, dist, id),
                )
        }),
{
    let w = walk_start(nodes, dist, entry_points, entry_points.len());
    lemma_start_ok(nodes, dist, entry_points, entry_points.len(), p);
    lemma_cut_good(nodes, dist, w.results, ef, w.visited, p);
    let v = Walk { results: cut(w.results, ef), ..w };
    lemma_run_ok(nodes, dist, ef, layer, v, p);
    let end = walk_run(nodes, dist, ef, layer, v);
    assert forall|a: int| 0 <= a < end.results.len() implies p((#[trigger] end.results[a]).0) by {
        assert(end.visited.contains(end.results[a].0));
    }
    if entry_points.len() > 0 && find(nodes, entry_points[0], 0) is Some {
        lemma_started(nodes, dist, entry_points, entry_points.len());
    }
    if ef >= reached(nodes, entry_points, layer).len() {
        law_layer_search_finds_all(nodes, dist, entry_points, ef, layer);
    }
}

proof fn lemma_started<V>(
    nodes: Seq<NodeView<V>>,
    dist: spec_fn(V) -> u64,
    entry_points: Seq<u32>,
    n: nat,
)
    requires
        0 < n <= entry_points.len(),
        find(nodes, entry_points[0], 0) is Some,
    ensures
        walk_start(nodes, dist, entry_points, n).results.len() > 0,
    decreases n,
{
    let w = walk_start(nodes, dist, entry_points, (n - 1) as nat);
    if n > 1 {
        lemma_started(nodes, dist, entry_points, (n - 1) as nat);
        if let Some(i) = find(nodes, entry_points[n - 1], 0) {
            lemma_hit_place(w.results, dist(nodes[i].vector), w.results.len());
        }
    } else {
        assert(w.visited =~= Set::empty());
        if let Some(i) = find(nodes, entry_points[0], 0) {
            lemma_hit_place(w.results, dist(nodes[i].vector), w.results.len());
        }
    }
}

// Searches that find everything.

/// Node `id` is an entry point, or a neighbour on the layer of a node that is reached in fewer steps.
pub open spec fn reached_in<V>(
    nodes: Seq<NodeView<V>>,
    entry_points: Seq<u32>,
    layer: nat,
    id: u32,
    n: nat,
) -> bool
    decreases n,
{
    find(nodes, id, 0) is Some && (entry_points.contains(id) || (n > 0 && exists|a: u32|
        #[trigger] linked(nodes, a, id, layer) && reached_in(
            nodes,
            entry_points,
            layer,
            a,
            (n - 1) as nat,
        )))
}

/// Node `id` can be reached from the entry points through neighbours on the layer.
pub open spec fn reachable<V>(
    nodes: Seq<NodeView<V>>,
    entry_points: Seq<u32>,
    layer: nat,
    id: u32,
) -> bool {
    exists|n: nat| reached_in(nodes, entry_points, layer, id, n)
}

/// The nodes that can be reached from the entry points through neighbours on the layer.
pub open spec fn reached<V>(nodes: Seq<NodeView<V>>, entry_points: Seq<u32>, layer: nat) -> Set<
    u32,
> {
    nodes.map_values(|node: NodeView<V>| node.id).to_set().filter(
        |id: u32| reachable(nodes, entry_points, layer, id),
    )
}

pub proof fn lemma_reached<V>(nodes: Seq<NodeView<V>>, entry_points: Seq<u32>, layer: nat)
    ensures
        reached(nodes, entry_points, layer).finite(),
        forall|id: u32| #[trigger]
            reached(nodes, entry_points, layer).contains(id) <==> reachable(
                nodes,
                entry_points,
                layer,
                id,
            ),
{
    let ids = nodes.map_values(|node: NodeView<V>| node.id);
    vstd::seq_lib::seq_to_set_is_finite(ids);
    assert forall|id: u32| #[trigger]
        reached(nodes, entry_points, layer).contains(id) <==> reachable(
            nodes,
            entry_points,
            layer,
            id,
        ) by {
        if reachable(nodes, entry_points, layer, id) {
            lemma_find(nodes, id, 0);
            let k = find(nodes, id, 0)->0;
            assert(ids[k] == id);
            assert(ids.contains(id));
        }
    }
}

/// What exists can be reached.
pub open spec fn reachable_if_there<V>(
    nodes: Seq<NodeView<V>>,
    entry_points: Seq<u32>,
    layer: nat,
) -> spec_fn(u32) -> bool {
    |id: u32| find(nodes, id, 0) is Some ==> reachable(nodes, entry_points, layer, id)
}

pub proof fn lemma_reach_closed<V>(nodes: Seq<NodeView<V>>, entry_points: Seq<u32>, layer: nat)
    ensures
        closed_under(nodes, layer, reachable_if_there(nodes, entry_points, layer)),
        forall|i: int|
            0 <= i < entry_points.len() ==> reachable_if_there(nodes, entry_points, layer)(
                #[trigger] entry_points[i],
            ),
{
    let p = reachable_if_there(nodes, entry_points, layer);
    assert forall|a: u32, k: int|
        p(a) && list_of(nodes, a, layer) is Some && 0 <= k < list_of(
            nodes,
            a,
            layer,
        )->0.len() implies p(#[trigger] list_of(nodes, a, layer)->0[k]) by {
        let b = list_of(nodes, a, layer)->0[k];
        if find(nodes, b, 0) is Some {
            let n = choose|n: nat| reached_in(nodes, entry_points, layer, a, n);
            assert(linked(nodes, a, b, layer));
            assert(reached_in(nodes, entry_points, layer, a, ((n + 1) - 1) as nat));
            assert(reached_in(nodes, entry_points, layer, b, n + 1));
        }
    }
    assert forall|i: int| 0 <= i < entry_points.len() implies p(#[trigger] entry_points[i]) by {
        if find(nodes, entry_points[i], 0) is Some {
            assert(reached_in(nodes, entry_points, layer, entry_points[i], 0));
        }
    }
}

/// A node with its distance.
pub open spec fn hit_of<V>(nodes: Seq<NodeView<V>>, dist: spec_fn(V) -> u64, id: u32) -> Hit {
    (id, dist(nodes[find(nodes, id, 0)->0].vector))
}

/// Nothing was dropped: the results have every visited node, and the candidates are among them.
pub open spec fn all_found<V>(nodes: Seq<NodeView<V>>, dist: spec_fn(V) -> u64, w: Walk) -> bool {
    &&& forall|id: u32| #[trigger]
        w.visited.contains(id) && find(nodes, id, 0) is Some ==> w.results.contains(
            hit_of(nodes, dist, id),
        )
    &&& forall|a: int| 0 <= a < w.candidates.len() ==> w.results.contains(#[trigger] w.candidates[a])
}

pub open spec fn awaits(w: Walk, id: u32) -> bool {
    exists|a: int| 0 <= a < w.candidates.len() && (#[trigger] w.candidates[a]).0 == id
}

/// The neighbours of visited nodes were visited, but for those of candidates and of `but`.
spec fn all_seen<V>(nodes: Seq<NodeView<V>>, layer: nat, w: Walk, but: Option<u32>) -> bool {
    forall|a: u32, b: u32|
        w.visited.contains(a) && #[trigger] linked(nodes, a, b, layer) ==> w.visited.contains(b)
            || awaits(w, a) || but == Some(a)
}

pub proof fn lemma_add_members(s: Seq<Hit>, x: Hit)
    ensures
        add_hit(s, x).len() == s.len() + 1,
        forall|y: Hit| #[trigger] add_hit(s, x).contains(y) <==> s.contains(y) || y == x,
{
    lemma_hit_place(s, x.1, s.len());
    let q = hit_place(s, x.1, s.len()) as int;
    let t = add_hit(s, x);
    assert(t[q] == x);
    assert forall|y: Hit| #[trigger] t.contains(y) <==> s.contains(y) || y == x by {
        if t.contains(y) {
            let a = choose|a: int| 0 <= a < t.len() && t[a] == y;
            if a < q {
                assert(s[a] == y);
            } else if a > q {
                assert(s[a - 1] == y);
            }
        }
        if s.contains(y) {
            let a = choose|a: int| 0 <= a < s.len() && s[a] == y;
            if a < q {
                assert(t[a] == y);
            } else {
                assert(t[a + 1] == y);
            }
        }
    }
}

/// There are no more hits than nodes that can be reached, and fewer if some such node is not among
/// them.
pub proof fn lemma_room<V>(
    nodes: Seq<NodeView<V>>,
    dist: spec_fn(V) -> u64,
    entry_points: Seq<u32>,
    layer: nat,
    hits: Seq<Hit>,
    ids: Set<u32>,
)
    requires
        good_hits(nodes, dist, hits),
        hits_in(hits, ids, reachable_if_there(nodes, entry_points, layer)),
    ensures
        hits.len() <= reached(nodes, entry_points, layer).len(),
        forall|id: u32|
            !ids.contains(id) && #[trigger] reachable(nodes, entry_points, layer, id) ==> hits.len()
                < reached(nodes, entry_points, layer).len(),
{
    let all = reached(nodes, entry_points, layer);
    let found = hit_ids(hits);
    lemma_reached(nodes, entry_points, layer);
    assert(found.no_duplicates()) by {
        assert forall|a: int, b: int| 0 <= a < found.len() && 0 <= b < found.len() && a
            != b implies found[a] != found[b] by {
            if a < b {
                assert(hits[a].0 != hits[b].0);
            } else {
                assert(hits[b].0 != hits[a].0);
            }
        }
    }
    found.unique_seq_to_set();
    vstd::seq_lib::seq_to_set_is_finite(found);
    assert(found.to_set().subset_of(all)) by {
        assert forall|id: u32| found.to_set().contains(id) implies all.contains(id) by {
            let a = choose|a: int| 0 <= a < found.len() && found[a] == id;
            assert(hits[a].0 == id);
            assert(find(nodes, hits[a].0, 0) is Some);
        }
    }
    vstd::set_lib::lemma_len_subset(found.to_set(), all);
    assert forall|id: u32|
        !ids.contains(id) && #[trigger] reachable(nodes, entry_points, layer, id) implies hits.len()
        < all.len() by {
        assert(!found.to_set().contains(id)) by {
            if found.to_set().contains(id) {
                let a = choose|a: int| 0 <= a < found.len() && found[a] == id;
                assert(ids.contains(hits[a].0));
            }
        }
        let more = found.to_set().insert(id);
        assert(more.subset_of(all));
        vstd::set_lib::lemma_len_subset(more, all);
    }
}

pub proof fn lemma_start_full<V>(
    nodes: Seq<NodeView<V>>,
    dist: spec_fn(V) -> u64,
    entry_points: Seq<u32>,
    n: nat,
)
    requires
        n <= entry_points.len(),
    ensures
        ({
            let w = walk_start(nodes, dist, entry_points, n);
            &&& all_found(nodes, dist, w)
            &&& forall|id: u32| #[trigger] w.visited.contains(id) ==> awaits(w, id)
            &&& forall|i: int|
                0 <= i < n && find(nodes, #[trigger] entry_points[i], 0) is Some
                    ==> w.visited.contains(entry_points[i])
        }),
    decreases n,
{
    if n > 0 {
        lemma_start_full(nodes, dist, entry_points, (n - 1) as nat);
        let w = walk_start(nodes, dist, entry_points, (n - 1) as nat);
        let id = entry_points[n - 1];
        if !w.visited.contains(id) && find(nodes, id, 0) is Some {
            lemma_taken(nodes, dist, w, walk_start(nodes, dist, entry_points, n), id);
        }
    }
}

/// Taking a node keeps what was found.
proof fn lemma_taken<V>(
    nodes: Seq<NodeView<V>>,
    dist: spec_fn(V) -> u64,
    w: Walk,
    v: Walk,
    id: u32,
)
    requires
        all_found(nodes, dist, w),
        find(nodes, id, 0) is Some,
        v == (Walk {
            visited: w.visited.insert(id),
            candidates: add_hit(w.candidates, hit_of(nodes, dist, id)),
            results: add_hit(w.results, hit_of(nodes, dist, id)),
        }),
    ensures
        all_found(nodes, dist, v),
        awaits(v, id),
        forall|o: u32| #[trigger] awaits(w, o) ==> awaits(v, o),
{
    let hit = hit_of(nodes, dist, id);
    lemma_add_members(w.results, hit);
    lemma_add_members(w.candidates, hit);
    assert forall|a: int| 0 <= a < v.candidates.len() implies v.results.contains(
        #[trigger] v.candidates[a],
    ) by {
        assert(v.candidates.contains(v.candidates[a]));
        if w.candidates.contains(v.candidates[a]) {
            let b = choose|b: int| 0 <= b < w.candidates.len() && w.candidates[b] == v.candidates[a];
            assert(w.results.contains(w.candidates[b]));
        }
    }
    assert(v.candidates.contains(hit));
    assert(awaits(v, id)) by {
        let b = choose|b: int| 0 <= b < v.candidates.len() && v.candidates[b] == hit;
        assert(v.candidates[b].0 == id);
    }
    assert forall|o: u32| #[trigger] awaits(w, o) implies awaits(v, o) by {
        let a = choose|a: int| 0 <= a < w.candidates.len() && (#[trigger] w.candidates[a]).0 == o;
        assert(w.candidates.contains(w.candidates[a]));
        assert(v.candidates.contains(w.candidates[a]));
        let b = choose|b: int| 0 <= b < v.candidates.len() && v.candidates[b] == w.candidates[a];
        assert(v.candidates[b].0 == o);
    }
}

proof fn lemma_look_full<V>(
    nodes: Seq<NodeView<V>>,
    dist: spec_fn(V) -> u64,
    entry_points: Seq<u32>,
    ef: nat,
    layer: nat,
    w: Walk,
    id: u32,
    but: Option<u32>,
)
    requires
        walk_ok(nodes, dist, ef, w, reachable_if_there(nodes, entry_points, layer)),
        reachable_if_there(nodes, entry_points, layer)(id),
        ef >= reached(nodes, entry_points, layer).len(),
        all_found(nodes, dist, w),
        all_seen(nodes, layer, w, but),
    ensures
        ({
            let v = walk_look(nodes, dist, ef, w, id);
            &&& all_found(nodes, dist, v)
            &&& all_seen(nodes, layer, v, but)
            &&& v.visited == w.visited.insert(id)
        }),
{
    let v = walk_look(nodes, dist, ef, w, id);
    if w.visited.contains(id) {
        assert(w.visited.insert(id) =~= w.visited);
    } else if find(nodes, id, 0) is Some {
        lemma_room(nodes, dist, entry_points, layer, w.results, w.visited);
        assert(reachable(nodes, entry_points, layer, id));
        lemma_add_members(w.results, hit_of(nodes, dist, id));
        lemma_taken(nodes, dist, w, v, id);
        assert forall|a: u32, b: u32|
            v.visited.contains(a) && #[trigger] linked(nodes, a, b, layer) implies v.visited.contains(
            b,
        ) || awaits(v, a) || but == Some(a) by {
            if a != id {
                assert(w.visited.contains(a));
                assert(awaits(w, a) ==> awaits(v, a));
            }
        }
    } else {
        assert forall|a: u32, b: u32|
            v.visited.contains(a) && #[trigger] linked(nodes, a, b, layer) implies v.visited.contains(
            b,
        ) || awaits(v, a) || but == Some(a) by {
            assert(a != id);
            if awaits(w, a) {
                let k = choose|k: int|
                    0 <= k < w.candidates.len() && (#[trigger] w.candidates[k]).0 == a;
                assert(v.candidates[k].0 == a);
            }
        }
    }
}

proof fn lemma_list_full<V>(
    nodes: Seq<NodeView<V>>,
    dist: spec_fn(V) -> u64,
    entry_points: Seq<u32>,
    ef: nat,
    layer: nat,
    w: Walk,
    list: Seq<u32>,
    n: nat,
    but: Option<u32>,
)
    requires
        walk_ok(nodes, dist, ef, w, reachable_if_there(nodes, entry_points, layer)),
        n <= list.len(),
        forall|i: int|
            0 <= i < list.len() ==> reachable_if_there(nodes, entry_points, layer)(
                #[trigger] list[i],
            ),
        ef >= reached(nodes, entry_points, layer).len(),
        all_found(nodes, dist, w),
        all_seen(nodes, layer, w, but),
    ensures
        ({
            let v = walk_list(nodes, dist, ef, w, list, n);
            &&& all_found(nodes, dist, v)
            &&& all_seen(nodes, layer, v, but)
            &&& forall|id: u32| #[trigger] w.visited.contains(id) ==> v.visited.contains(id)
            &&& forall|i: int| 0 <= i < n ==> v.visited.contains(#[trigger] list[i])
        }),
    decreases n,
{
    if n > 0 {
        let p = reachable_if_there(nodes, entry_points, layer);
        lemma_list_full(nodes, dist, entry_points, ef, layer, w, list, (n - 1) as nat, but);
        lemma_list_ok(nodes, dist, ef, w, list, (n - 1) as nat, p);
        let v = walk_list(nodes, dist, ef, w, list, (n - 1) as nat);
        lemma_look_full(nodes, dist, entry_points, ef, layer, v, list[n - 1], but);
    }
}

proof fn lemma_step_full<V>(
    nodes: Seq<NodeView<V>>,
    dist: spec_fn(V) -> u64,
    entry_points: Seq<u32>,
    ef: nat,
    layer: nat,
    w: Walk,
)
    requires
        walk_ok(nodes, dist, ef, w, reachable_if_there(nodes, entry_points, layer)),
        ef >= reached(nodes, entry_points, layer).len(),
        all_found(nodes, dist, w),
        all_seen(nodes, layer, w, None),
        w.candidates.len() > 0,
    ensures
        ({
            let v = walk_step(nodes, dist, ef, layer, w);
            &&& walk_ok(nodes, dist, ef, v, reachable_if_there(nodes, entry_points, layer))
            &&& all_found(nodes, dist, v)
            &&& all_seen(nodes, layer, v, None)
            &&& forall|id: u32| #[trigger] w.visited.contains(id) ==> v.visited.contains(id)
        }),
{
    let p = reachable_if_there(nodes, entry_points, layer);
    let id = w.candidates[0].0;
    let u = Walk { candidates: w.candidates.skip(1), ..w };
    let v = walk_step(nodes, dist, ef, layer, w);
    lemma_reach_closed(nodes, entry_points, layer);
    assert(hits_in(u.candidates, u.visited, p)) by {
        assert forall|a: int| 0 <= a < u.candidates.len() implies u.visited.contains(
            (#[trigger] u.candidates[a]).0,
        ) && p(u.candidates[a].0) by {
            assert(u.candidates[a] == w.candidates[a + 1]);
        }
    }
    assert(p(id)) by {
        assert(w.visited.contains(w.candidates[0].0));
    }
    assert(all_found(nodes, dist, u)) by {
        assert forall|a: int| 0 <= a < u.candidates.len() implies u.results.contains(
            #[trigger] u.candidates[a],
        ) by {
            assert(u.candidates[a] == w.candidates[a + 1]);
        }
    }
    assert(all_seen(nodes, layer, u, Some(id))) by {
        assert forall|a: u32, b: u32|
            u.visited.contains(a) && #[trigger] linked(nodes, a, b, layer) implies u.visited.contains(
            b,
        ) || awaits(u, a) || Some(id) == Some(a) by {
            if awaits(w, a) && a != id {
                let k = choose|k: int|
                    0 <= k < w.candidates.len() && (#[trigger] w.candidates[k]).0 == a;
                assert(u.candidates[k - 1].0 == a);
            }
        }
    }
    lemma_find(nodes, id, 0);
    match list_of(nodes, id, layer) {
        Some(list) => {
            assert forall|k: int| 0 <= k < list.len() implies p(#[trigger] list[k]) by {
                assert(p(list_of(nodes, id, layer)->0[k]));
            }
            lemma_list_ok(nodes, dist, ef, u, list, list.len(), p);
            lemma_list_full(
                nodes,
                dist,
                entry_points,
                ef,
                layer,
                u,
                list,
                list.len(),
                Some(id),
            );
            assert forall|a: u32, b: u32|
                v.visited.contains(a) && #[trigger] linked(
                    nodes,
                    a,
                    b,
                    layer,
                ) implies v.visited.contains(b) || awaits(v, a) by {
                if a == id {
                    let k = choose|k: int| 0 <= k < list.len() && list[k] == b;
                    assert(v.visited.contains(list[k]));
                }
            }
        },
        None => {
            assert forall|a: u32, b: u32|
                v.visited.contains(a) && #[trigger] linked(
                    nodes,
                    a,
                    b,
                    layer,
                ) implies v.visited.contains(b) || awaits(v, a) by {
                assert(a != id);
            }
        },
    }
}

proof fn lemma_run_full<V>(
    nodes: Seq<NodeView<V>>,
    dist: spec_fn(V) -> u64,
    entry_points: Seq<u32>,
    ef: nat,
    layer: nat,
    w: Walk,
)
    requires
        walk_ok(nodes, dist, ef, w, reachable_if_there(nodes, entry_points, layer)),
        ef >= reached(nodes, entry_points, layer).len(),
        all_found(nodes, dist, w),
        all_seen(nodes, layer, w, None),
    ensures
        ({
            let v = walk_run(nodes, dist, ef, layer, w);
            &&& all_found(nodes, dist, v)
            &&& forall|a: u32, b: u32|
                v.visited.contains(a) && #[trigger] linked(nodes, a, b, layer)
                    ==> v.visited.contains(b)
            &&& forall|id: u32| #[trigger] w.visited.contains(id) ==> v.visited.contains(id)
        }),
    decreases walk_left(nodes, w),
{
    if w.candidates.len() > 0 {
        assert(!walk_over(w, ef)) by {
            assert(w.results.contains(w.candidates[0]));
            let a = choose|a: int| 0 <= a < w.results.len() && w.results[a] == w.candidates[0];
            let last = w.results.len() - 1;
            if a < last {
                assert(w.results[a].1 <= w.results[last].1);
            }
        }
        lemma_step_left(nodes, dist, ef, layer, w);
        lemma_step_full(nodes, dist, entry_points, ef, layer, w);
        let v = walk_step(nodes, dist, ef, layer, w);
        lemma_run_full(nodes, dist, entry_points, ef, layer, v);
        assert forall|id: u32| #[trigger] w.visited.contains(id) implies walk_run(
            nodes,
            dist,
            ef,
            layer,
            w,
        ).visited.contains(id) by {
            assert(v.visited.contains(id));
        }
    }
}

pub proof fn lemma_all_visited<V>(
    nodes: Seq<NodeView<V>>,
    entry_points: Seq<u32>,
    layer: nat,
    visited: Set<u32>,
    id: u32,
    n: nat,
)
    requires
        forall|i: int|
            0 <= i < entry_points.len() && find(nodes, #[trigger] entry_points[i], 0) is Some
                ==> visited.contains(entry_points[i]),
        forall|a: u32, b: u32|
            visited.contains(a) && #[trigger] linked(nodes, a, b, layer) ==> visited.contains(b),
        reached_in(nodes, entry_points, layer, id, n),
    ensures
        visited.contains(id),
    decreases n,
{
    if entry_points.contains(id) {
        let i = choose|i: int| 0 <= i < entry_points.len() && entry_points[i] == id;
        assert(visited.contains(entry_points[i]));
    } else {
        let a = choose|a: u32| #[trigger]
            linked(nodes, a, id, layer) && reached_in(
                nodes,
                entry_points,
                layer,
                a,
                (n - 1) as nat,
            );
        lemma_all_visited(nodes, entry_points, layer, visited, a, (n - 1) as nat);
    }
}

/// A search on a layer that may find as many nodes as can be reached finds all of them.
pub proof fn law_layer_search_finds_all<V>(
    nodes: Seq<NodeView<V>>,
    dist: spec_fn(V) -> u64,
    entry_points: Seq<u32>,
    ef: nat,
    layer: nat,
)
    requires
        ef >= reached(nodes, entry_points, layer).len(),
    ensures
        ({
            let hits = layer_search(nodes, dist, entry_points, ef, layer);
            &&& forall|id: u32| #[trigger]
                reachable(nodes, entry_points, layer, id) ==> hits.contains(
                    hit_of(nodes, dist, id),
                )
            &&& forall|a: int|
                0 <= a < hits.len() ==> reachable(nodes, entry_points, layer, (#[trigger] hits[a]).0)
            &&& hits.len() == reached(nodes, entry_points, layer).len()
        }),
{
    let p = reachable_if_there(nodes, entry_points, layer);
    let w = walk_start(nodes, dist, entry_points, entry_points.len());
    lemma_reach_closed(nodes, entry_points, layer);
    lemma_start_ok(nodes, dist, entry_points, entry_points.len(), p);
    lemma_start_full(nodes, dist, entry_points, entry_points.len());
    lemma_room(nodes, dist, entry_points, layer, w.results, w.visited);
    let v = Walk { results: cut(w.results, ef), ..w };
    assert(v == w);
    lemma_run_full(nodes, dist, entry_points, ef, layer, w);
    lemma_run_ok(nodes, dist, ef, layer, w, p);
    let end = walk_run(nodes, dist, ef, layer, w);
    let hits = end.results;
    assert forall|id: u32| #[trigger] reachable(nodes, entry_points, layer, id) implies hits.contains(
        hit_of(nodes, dist, id),
    ) by {
        let n = choose|n: nat| reached_in(nodes, entry_points, layer, id, n);
        assert forall|i: int|
            0 <= i < entry_points.len() && find(
                nodes,
                #[trigger] entry_points[i],
                0,
            ) is Some implies end.visited.contains(entry_points[i]) by {
            assert(w.visited.contains(entry_points[i]));
        }
        lemma_all_visited(nodes, entry_points, layer, end.visited, id, n);
        assert(end.visited.contains(id));
    }
    assert forall|a: int| 0 <= a < hits.len() implies reachable(
        nodes,
        entry_points,
        layer,
        (#[trigger] hits[a]).0,
    ) by {
        assert(find(nodes, hits[a].0, 0) is Some);
        assert(p(hits[a].0));
    }
    lemma_room(nodes, dist, entry_points, layer, hits, end.visited);
    lemma_reached(nodes, entry_points, layer);
    let found = hit_ids(hits);
    let all = reached(nodes, entry_points, layer);
    assert(all.subset_of(found.to_set())) by {
        assert forall|id: u32| all.contains(id) implies found.to_set().contains(id) by {
            assert(hits.contains(hit_of(nodes, dist, id)));
            let a = choose|a: int| 0 <= a < hits.len() && hits[a] == hit_of(nodes, dist, id);
            assert(found[a] == id);
            assert(found.contains(id));
        }
    }
    vstd::seq_lib::seq_to_set_is_finite(found);
    vstd::set_lib::lemma_len_subset(all, found.to_set());
    found.lemma_cardinality_of_set();
}

// Links.

/// Node `a` has `b` as a neighbour on a layer.
pub open spec fn linked<V>(nodes: Seq<NodeView<V>>, a: u32, b: u32, layer: nat) -> bool {
    list_of(nodes, a, layer) matches Some(list) && list.contains(b)
}

/// Links go in both directions, and none leads from a node to itself.
pub open spec fn two_way<V>(nodes: Seq<NodeView<V>>) -> bool {
    forall|a: u32, b: u32, layer: nat| #[trigger]
        linked(nodes, a, b, layer) ==> a != b && linked(nodes, b, a, layer)
}

/// No node has a neighbour twice on a layer.
pub open spec fn plain<V>(nodes: Seq<NodeView<V>>) -> bool {
    forall|a: u32, layer: nat|
        (#[trigger] list_of(nodes, a, layer)) matches Some(list) ==> list.no_duplicates()
}

/// No node has more neighbours on a layer than it may have.
pub open spec fn bounded<V>(nodes: Seq<NodeView<V>>, config: HnswConfig) -> bool {
    forall|a: u32, layer: nat|
        (#[trigger] list_of(nodes, a, layer)) matches Some(list) ==> list.len() <= limit_of(
            config,
            layer,
        )
}

/// Setting a list sets that list and no other.
proof fn lemma_put_lists<V>(
    nodes: Seq<NodeView<V>>,
    id: u32,
    layer: nat,
    list: Seq<u32>,
    a: u32,
    l: nat,
)
    ensures
        list_of(put_list(nodes, id, layer, list), a, l) == (if a == id && l == layer && list_of(
            nodes,
            id,
            layer,
        ) is Some {
            Some(list)
        } else {
            list_of(nodes, a, l)
        }),
{
    let after = put_list(nodes, id, layer, list);
    lemma_put_same(nodes, id, layer, list);
    lemma_find_same(nodes, after, a, 0);
    lemma_find(nodes, id, 0);
    lemma_find(nodes, a, 0);
}

/// What is left of a list without an id.
pub proof fn lemma_without(s: Seq<u32>, id: u32)
    ensures
        forall|x: u32| #[trigger]
            s.filter(other_than(id)).contains(x) <==> s.contains(x) && x != id,
        s.filter(other_than(id)).len() <= s.len(),
        s.no_duplicates() ==> s.filter(other_than(id)).no_duplicates(),
    decreases s.len(),
{
    reveal(Seq::filter);
    let t = s.filter(other_than(id));
    if s.len() > 0 {
        let dl = s.drop_last();
        let x = s.last();
        lemma_without(dl, id);
        let u = dl.filter(other_than(id));
        assert forall|y: u32| #[trigger] t.contains(y) <==> s.contains(y) && y != id by {
            assert(s.contains(y) <==> dl.contains(y) || y == x) by {
                if dl.contains(y) {
                    let k = choose|k: int| 0 <= k < dl.len() && dl[k] == y;
                    assert(s[k] == y);
                }
                assert(s[s.len() - 1] == x);
                if s.contains(y) && y != x {
                    let k = choose|k: int| 0 <= k < s.len() && s[k] == y;
                    assert(dl[k] == y);
                }
            }
            assert(u.contains(y) <==> dl.contains(y) && y != id);
            if x != id {
                assert(t == u.push(x));
                assert(t.contains(y) <==> u.contains(y) || y == x) by {
                    if u.contains(y) {
                        let k = choose|k: int| 0 <= k < u.len() && u[k] == y;
                        assert(t[k] == y);
                    }
                    assert(t[u.len() as int] == x);
                }
            } else {
                assert(t == u);
            }
        }
        if s.no_duplicates() {
            assert(dl.no_duplicates());
            assert(!dl.contains(x)) by {
                if dl.contains(x) {
                    let k = choose|k: int| 0 <= k < dl.len() && dl[k] == x;
                    assert(s[k] == s[s.len() - 1]);
                }
            }
            if x != id {
                assert(!u.contains(x));
                assert(t.no_duplicates()) by {
                    assert forall|i: int, j: int|
                        0 <= i < t.len() && 0 <= j < t.len() && i != j implies t[i] != t[j] by {
                        if i < u.len() {
                            assert(u.contains(t[i])) by {
                                assert(u[i] == t[i]);
                            }
                        }
                        if j < u.len() {
                            assert(u.contains(t[j])) by {
                                assert(u[j] == t[j]);
                            }
                        }
                    }
                }
            }
        }
    }
}

/// Which lists change when a node is dropped as a neighbour.
proof fn lemma_unlink_lists<V>(
    nodes: Seq<NodeView<V>>,
    list: Seq<u32>,
    kept: Seq<u32>,
    id: u32,
    layer: nat,
    n: nat,
    a: u32,
    l: nat,
)
    requires
        n <= list.len(),
        list.no_duplicates(),
    ensures
        list_of(unlink(nodes, list, kept, id, layer, n), a, l) == (if l == layer && list.take(
            n as int,
        ).contains(a) && !kept.contains(a) {
            match list_of(nodes, a, l) {
                Some(old_list) => Some(old_list.filter(other_than(id))),
                None => None,
            }
        } else {
            list_of(nodes, a, l)
        }),
    decreases n,
{
    if n > 0 {
        lemma_unlink_lists(nodes, list, kept, id, layer, (n - 1) as nat, a, l);
        let v = unlink(nodes, list, kept, id, layer, (n - 1) as nat);
        let other = list[n - 1];
        let before = list.take(n - 1);
        let now = list.take(n as int);
        assert(now =~= before.push(other));
        assert(now.contains(a) <==> before.contains(a) || a == other) by {
            if before.contains(a) {
                let k = choose|k: int| 0 <= k < before.len() && before[k] == a;
                assert(now[k] == a);
            }
            assert(now[n - 1] == other);
        }
        assert(!before.contains(other)) by {
            if before.contains(other) {
                let k = choose|k: int| 0 <= k < before.len() && before[k] == other;
                assert(list[k] == list[n - 1]);
            }
        }
        if !kept.contains(other) {
            if let Some(x) = list_of(v, other, layer) {
                lemma_put_lists(v, other, layer, x.filter(other_than(id)), a, l);
            }
        }
    } else {
        assert(list.take(0) =~= Seq::empty());
    }
}

/// The ids of hits are distinct members of a list.
pub open spec fn picked(hits: Seq<Hit>, list: Seq<u32>) -> bool {
    &&& forall|i: int, j: int|
        0 <= i < j < hits.len() ==> (#[trigger] hits[i]).0 != (#[trigger] hits[j]).0
    &&& forall|i: int| 0 <= i < hits.len() ==> list.contains((#[trigger] hits[i]).0)
}

proof fn lemma_by_distance<V>(
    nodes: Seq<NodeView<V>>,
    dist: spec_fn(V) -> u64,
    list: Seq<u32>,
    n: nat,
)
    requires
        n <= list.len(),
        list.no_duplicates(),
    ensures
        picked(by_distance(nodes, dist, list, n), list.take(n as int)),
    decreases n,
{
    if n > 0 {
        lemma_by_distance(nodes, dist, list, (n - 1) as nat);
        let s = by_distance(nodes, dist, list, (n - 1) as nat);
        let x = list[n - 1];
        let before = list.take(n - 1);
        let now = list.take(n as int);
        assert(now =~= before.push(x));
        assert(!before.contains(x)) by {
            if before.contains(x) {
                let k = choose|k: int| 0 <= k < before.len() && before[k] == x;
                assert(list[k] == list[n - 1]);
            }
        }
        assert forall|y: u32| #[trigger] before.contains(y) implies now.contains(y) by {
            let k = choose|k: int| 0 <= k < before.len() && before[k] == y;
            assert(now[k] == y);
        }
        assert(now.contains(x)) by {
            assert(now[n - 1] == x);
        }
        if let Some(i) = find(nodes, x, 0) {
            let hit = (x, dist(nodes[i].vector));
            lemma_hit_place(s, hit.1, s.len());
            let q = hit_place(s, hit.1, s.len()) as int;
            let t = add_hit(s, hit);
            assert forall|a: int| 0 <= a < t.len() implies (#[trigger] t[a]) == (if a < q {
                s[a]
            } else if a == q {
                hit
            } else {
                s[a - 1]
            }) by {}
            assert forall|a: int| 0 <= a < s.len() implies (#[trigger] s[a]).0 != x && now.contains(
                s[a].0,
            ) by {
                assert(before.contains(s[a].0));
            }
            assert forall|a: int, b: int| 0 <= a < b < t.len() implies (#[trigger] t[a]).0 != (
            #[trigger] t[b]).0 by {
                let a0 = if a < q {
                    a
                } else {
                    a - 1
                };
                let b0 = if b < q {
                    b
                } else {
                    b - 1
                };
                if a != q && b != q {
                    assert(s[a0].0 != s[b0].0);
                } else if a != q {
                    assert(s[a0].0 != x);
                } else {
                    assert(s[b0].0 != x);
                }
            }
            assert forall|a: int| 0 <= a < t.len() implies now.contains((#[trigger] t[a]).0) by {
                if a < q {
                    assert(now.contains(s[a].0));
                } else if a > q {
                    assert(now.contains(s[a - 1].0));
                }
            }
        }
    }
}

/// The chosen among picked hits are distinct members of the list.
proof fn lemma_chosen(hits: Seq<Hit>, list: Seq<u32>, m: nat)
    requires
        picked(hits, list),
    ensures
        chosen(hits, m).no_duplicates(),
        chosen(hits, m).len() <= m,
        forall|x: u32| #[trigger] chosen(hits, m).contains(x) ==> list.contains(x),
{
    let c = chosen(hits, m);
    assert forall|i: int| 0 <= i < c.len() implies #[trigger] c[i] == hits[i].0 by {}
    assert forall|x: u32| #[trigger] c.contains(x) implies list.contains(x) by {
        let k = choose|k: int| 0 <= k < c.len() && c[k] == x;
        assert(list.contains(hits[k].0));
    }
    assert forall|i: int, j: int| 0 <= i < c.len() && 0 <= j < c.len() && i != j implies c[i]
        != c[j] by {
        if i < j {
            assert(hits[i].0 != hits[j].0);
        } else {
            assert(hits[j].0 != hits[i].0);
        }
    }
}

/// The neighbours that a node keeps when it is pruned.
pub open spec fn kept_of<V>(
    nodes: Seq<NodeView<V>>,
    dist: spec_fn(V, V) -> u64,
    id: u32,
    layer: nat,
    limit: nat,
) -> Seq<u32> {
    let list = list_of(nodes, id, layer)->0;
    let own = nodes[find(nodes, id, 0)->0].vector;
    chosen(by_distance(nodes, from_vector(dist, own), list, list.len()), limit)
}

/// A node is pruned: it has too many neighbours.
pub open spec fn crowded<V>(nodes: Seq<NodeView<V>>, id: u32, layer: nat, limit: nat) -> bool {
    list_of(nodes, id, layer) matches Some(list) && list.len() > limit
}

/// Which lists pruning changes.
pub proof fn lemma_prune_lists<V>(
    nodes: Seq<NodeView<V>>,
    dist: spec_fn(V, V) -> u64,
    id: u32,
    layer: nat,
    limit: nat,
    a: u32,
    l: nat,
)
    requires
        plain(nodes),
        two_way(nodes),
        crowded(nodes, id, layer, limit),
    ensures
        ({
            let list = list_of(nodes, id, layer)->0;
            let kept = kept_of(nodes, dist, id, layer, limit);
            list_of(prune(nodes, dist, id, layer, limit), a, l) == (if l == layer && a == id {
                Some(kept)
            } else if l == layer && list.contains(a) && !kept.contains(a) {
                match list_of(nodes, a, l) {
                    Some(old_list) => Some(old_list.filter(other_than(id))),
                    None => None,
                }
            } else {
                list_of(nodes, a, l)
            })
        }),
{
    let list = list_of(nodes, id, layer)->0;
    let kept = kept_of(nodes, dist, id, layer, limit);
    let put = put_list(nodes, id, layer, kept);
    lemma_put_lists(nodes, id, layer, kept, a, l);
    assert(list.no_duplicates());
    lemma_unlink_lists(put, list, kept, id, layer, list.len(), a, l);
    assert(list.take(list.len() as int) =~= list);
    if a == id && l == layer && list.contains(a) {
        assert(linked(nodes, id, id, layer));
    }
}

/// The neighbours that a node keeps are some of those that it had.
pub proof fn lemma_kept<V>(
    nodes: Seq<NodeView<V>>,
    dist: spec_fn(V, V) -> u64,
    id: u32,
    layer: nat,
    limit: nat,
)
    requires
        plain(nodes),
        crowded(nodes, id, layer, limit),
    ensures
        ({
            let kept = kept_of(nodes, dist, id, layer, limit);
            &&& kept.no_duplicates()
            &&& kept.len() <= limit
            &&& forall|x: u32| #[trigger]
                kept.contains(x) ==> list_of(nodes, id, layer)->0.contains(x)
        }),
{
    let list = list_of(nodes, id, layer)->0;
    let own = nodes[find(nodes, id, 0)->0].vector;
    let d = from_vector(dist, own);
    assert(list.no_duplicates());
    lemma_by_distance(nodes, d, list, list.len());
    assert(list.take(list.len() as int) =~= list);
    lemma_chosen(by_distance(nodes, d, list, list.len()), list, limit);
}

/// Lists after pruning: the same or shorter.
pub open spec fn shrunk<V>(a: Seq<NodeView<V>>, b: Seq<NodeView<V>>, layer: nat) -> bool {
    forall|id: u32, l: nat|
        match (list_of(a, id, l), #[trigger] list_of(b, id, l)) {
            (Some(x), Some(y)) => y.len() <= x.len() && (l != layer ==> x == y),
            (None, None) => true,
            _ => false,
        }
}

/// Pruning keeps links in both directions, and leaves the node with no more neighbours than it may
/// have and no other node with more than it had.
proof fn lemma_prune_ok<V>(
    nodes: Seq<NodeView<V>>,
    dist: spec_fn(V, V) -> u64,
    id: u32,
    layer: nat,
    limit: nat,
)
    requires
        plain(nodes),
        two_way(nodes),
    ensures
        ({
            let after = prune(nodes, dist, id, layer, limit);
            &&& plain(after)
            &&& two_way(after)
            &&& shrunk(nodes, after, layer)
            &&& list_of(after, id, layer) matches Some(list) ==> list.len() <= limit
        }),
{
    let after = prune(nodes, dist, id, layer, limit);
    if crowded(nodes, id, layer, limit) {
        let list = list_of(nodes, id, layer)->0;
        let kept = kept_of(nodes, dist, id, layer, limit);
        lemma_kept(nodes, dist, id, layer, limit);
        lemma_prune_lists(nodes, dist, id, layer, limit, id, layer);
        assert forall|a: u32, l: nat|
            (#[trigger] list_of(after, a, l)) matches Some(x) ==> x.no_duplicates() by {
            lemma_prune_lists(nodes, dist, id, layer, limit, a, l);
            if let Some(x) = list_of(nodes, a, l) {
                assert(x.no_duplicates());
                lemma_without(x, id);
            }
        }
        assert forall|a: u32, l: nat|
            match (list_of(nodes, a, l), #[trigger] list_of(after, a, l)) {
                (Some(x), Some(y)) => y.len() <= x.len() && (l != layer ==> x == y),
                (None, None) => true,
                _ => false,
            } by {
            lemma_prune_lists(nodes, dist, id, layer, limit, a, l);
            if let Some(x) = list_of(nodes, a, l) {
                lemma_without(x, id);
            }
        }
        assert forall|a: u32, b: u32, l: nat| #[trigger]
            linked(after, a, b, l) implies a != b && linked(after, b, a, l) by {
            lemma_prune_link(nodes, dist, id, layer, limit, a, b, l);
        }
    } else {
        assert(after == nodes);
    }
}

proof fn lemma_prune_link<V>(
    nodes: Seq<NodeView<V>>,
    dist: spec_fn(V, V) -> u64,
    id: u32,
    layer: nat,
    limit: nat,
    a: u32,
    b: u32,
    l: nat,
)
    requires
        plain(nodes),
        two_way(nodes),
        crowded(nodes, id, layer, limit),
        linked(prune(nodes, dist, id, layer, limit), a, b, l),
    ensures
        a != b,
        linked(prune(nodes, dist, id, layer, limit), b, a, l),
{
    let list = list_of(nodes, id, layer)->0;
    let kept = kept_of(nodes, dist, id, layer, limit);
    lemma_kept(nodes, dist, id, layer, limit);
    lemma_prune_lists(nodes, dist, id, layer, limit, a, l);
    lemma_prune_lists(nodes, dist, id, layer, limit, b, l);
    if let Some(x) = list_of(nodes, a, l) {
        lemma_without(x, id);
    }
    if let Some(x) = list_of(nodes, b, l) {
        lemma_without(x, id);
    }
    if l == layer && a == id {
        assert(list.contains(b));
        assert(linked(nodes, id, b, layer));
        assert(linked(nodes, b, id, layer));
    } else {
        assert(linked(nodes, a, b, l));
        assert(linked(nodes, b, a, l));
        if l == layer && b == id {
            assert(list.contains(a));
            assert(kept.contains(a));
        }
    }
}

proof fn lemma_shrunk_chain<V>(
    a: Seq<NodeView<V>>,
    b: Seq<NodeView<V>>,
    c: Seq<NodeView<V>>,
    layer: nat,
)
    requires
        shrunk(a, b, layer),
        shrunk(b, c, layer),
    ensures
        shrunk(a, c, layer),
{
    assert forall|id: u32, l: nat|
        match (list_of(a, id, l), #[trigger] list_of(c, id, l)) {
            (Some(x), Some(y)) => y.len() <= x.len() && (l != layer ==> x == y),
            (None, None) => true,
            _ => false,
        } by {
        let m = list_of(b, id, l);
    }
}

/// Pruning nodes one after the other.
pub proof fn lemma_prune_all_ok<V>(
    nodes: Seq<NodeView<V>>,
    dist: spec_fn(V, V) -> u64,
    others: Seq<u32>,
    layer: nat,
    limit: nat,
    n: nat,
)
    requires
        plain(nodes),
        two_way(nodes),
        n <= others.len(),
    ensures
        ({
            let after = prune_all(nodes, dist, others, layer, limit, n);
            &&& plain(after)
            &&& two_way(after)
            &&& shrunk(nodes, after, layer)
            &&& forall|k: int|
                0 <= k < n ==> (list_of(after, #[trigger] others[k], layer) matches Some(list)
                    ==> list.len() <= limit)
        }),
    decreases n,
{
    if n > 0 {
        lemma_prune_all_ok(nodes, dist, others, layer, limit, (n - 1) as nat);
        let v = prune_all(nodes, dist, others, layer, limit, (n - 1) as nat);
        let after = prune(v, dist, others[n - 1], layer, limit);
        lemma_prune_ok(v, dist, others[n - 1], layer, limit);
        lemma_shrunk_chain(nodes, v, after, layer);
        assert forall|k: int| 0 <= k < n implies (list_of(
            after,
            #[trigger] others[k],
            layer,
        ) matches Some(list) ==> list.len() <= limit) by {
            if k < n - 1 {
                assert(list_of(v, others[k], layer) matches Some(list) ==> list.len() <= limit);
                let now = list_of(after, others[k], layer);
            }
        }
    }
}

/// Which lists get a node as a neighbour.
proof fn lemma_back_lists<V>(
    nodes: Seq<NodeView<V>>,
    others: Seq<u32>,
    id: u32,
    layer: nat,
    n: nat,
    a: u32,
    l: nat,
)
    requires
        n <= others.len(),
        others.no_duplicates(),
    ensures
        list_of(link_back(nodes, others, id, layer, n), a, l) == (match list_of(nodes, a, l) {
            Some(list) => Some(
                if l == layer && others.take(n as int).contains(a) && !list.contains(id) {
                    list.push(id)
                } else {
                    list
                },
            ),
            None => None,
        }),
    decreases n,
{
    if n > 0 {
        lemma_back_lists(nodes, others, id, layer, (n - 1) as nat, a, l);
        let v = link_back(nodes, others, id, layer, (n - 1) as nat);
        let other = others[n - 1];
        let before = others.take(n - 1);
        let now = others.take(n as int);
        assert(now =~= before.push(other));
        assert(now.contains(a) <==> before.contains(a) || a == other) by {
            if before.contains(a) {
                let k = choose|k: int| 0 <= k < before.len() && before[k] == a;
                assert(now[k] == a);
            }
            assert(now[n - 1] == other);
        }
        assert(!before.contains(other)) by {
            if before.contains(other) {
                let k = choose|k: int| 0 <= k < before.len() && before[k] == other;
                assert(others[k] == others[n - 1]);
            }
        }
        if let Some(list) = list_of(v, other, layer) {
            if !list.contains(id) {
                lemma_put_lists(v, other, layer, list.push(id), a, l);
            }
        }
    } else {
        assert(others.take(0) =~= Seq::empty());
    }
}

/// What a node is linked with: nodes that have the layer, none twice, not itself.
pub open spec fn linkable<V>(
    nodes: Seq<NodeView<V>>,
    others: Seq<u32>,
    id: u32,
    layer: nat,
) -> bool {
    &&& others.no_duplicates()
    &&& !others.contains(id)
    &&& forall|x: u32| #[trigger] others.contains(x) ==> list_of(nodes, x, layer) is Some
}

/// Linking a node that has no neighbours on a layer yet.
pub proof fn lemma_connect<V>(nodes: Seq<NodeView<V>>, others: Seq<u32>, id: u32, layer: nat)
    requires
        plain(nodes),
        two_way(nodes),
        list_of(nodes, id, layer) == Some(Seq::<u32>::empty()),
        linkable(nodes, others, id, layer),
    ensures
        ({
            let after = link_back(
                put_list(nodes, id, layer, others),
                others,
                id,
                layer,
                others.len(),
            );
            &&& plain(after)
            &&& two_way(after)
            &&& forall|a: u32, l: nat| #[trigger]
                list_of(after, a, l) == (match list_of(nodes, a, l) {
                    Some(list) => Some(
                        if l == layer && a == id {
                            others
                        } else if l == layer && others.contains(a) {
                            list.push(id)
                        } else {
                            list
                        },
                    ),
                    None => None,
                })
        }),
{
    let put = put_list(nodes, id, layer, others);
    let after = link_back(put, others, id, layer, others.len());
    assert(others.take(others.len() as int) =~= others);
    assert forall|a: u32, l: nat| #[trigger]
        list_of(after, a, l) == (match list_of(nodes, a, l) {
            Some(list) => Some(
                if l == layer && a == id {
                    others
                } else if l == layer && others.contains(a) {
                    list.push(id)
                } else {
                    list
                },
            ),
            None => None,
        }) by {
        lemma_put_lists(nodes, id, layer, others, a, l);
        lemma_back_lists(put, others, id, layer, others.len(), a, l);
        if let Some(list) = list_of(nodes, a, l) {
            if l == layer && list.contains(id) {
                assert(linked(nodes, a, id, layer));
                assert(linked(nodes, id, a, layer));
            }
        }
    }
    assert forall|a: u32, l: nat|
        (#[trigger] list_of(after, a, l)) matches Some(list) ==> list.no_duplicates() by {
        if let Some(list) = list_of(nodes, a, l) {
            assert(list.no_duplicates());
            if l == layer && list.contains(id) {
                assert(linked(nodes, a, id, layer));
                assert(linked(nodes, id, a, layer));
            }
        }
    }
    assert forall|a: u32, b: u32, l: nat| #[trigger]
        linked(after, a, b, l) implies a != b && linked(after, b, a, l) by {
        lemma_connect_link(nodes, after, others, id, layer, a, b, l);
    }
}

proof fn lemma_connect_link<V>(
    nodes: Seq<NodeView<V>>,
    after: Seq<NodeView<V>>,
    others: Seq<u32>,
    id: u32,
    layer: nat,
    a: u32,
    b: u32,
    l: nat,
)
    requires
        two_way(nodes),
        list_of(nodes, id, layer) == Some(Seq::<u32>::empty()),
        linkable(nodes, others, id, layer),
        forall|a: u32, l: nat| #[trigger]
            list_of(after, a, l) == (match list_of(nodes, a, l) {
                Some(list) => Some(
                    if l == layer && a == id {
                        others
                    } else if l == layer && others.contains(a) {
                        list.push(id)
                    } else {
                        list
                    },
                ),
                None => None,
            }),
        linked(after, a, b, l),
    ensures
        a != b,
        linked(after, b, a, l),
{
    let la = list_of(nodes, a, l)->0;
    let now = list_of(after, a, l)->0;
    if l == layer && a == id {
        let lb = list_of(nodes, b, l)->0;
        let nb = list_of(after, b, l)->0;
        assert(nb[lb.len() as int] == id);
    } else if l == layer && b == id && !la.contains(b) {
        let lb = list_of(after, id, l)->0;
        assert(others.contains(a)) by {
            if !others.contains(a) {
                assert(now == la);
            }
        }
    } else {
        assert(la.contains(b)) by {
            if !la.contains(b) {
                let k = choose|k: int| 0 <= k < now.len() && now[k] == b;
                if k < la.len() {
                    assert(la[k] == b);
                }
            }
        }
        assert(linked(nodes, a, b, l));
        assert(linked(nodes, b, a, l));
        let lb = list_of(nodes, b, l)->0;
        let nb = list_of(after, b, l)->0;
        let k = choose|k: int| 0 <= k < lb.len() && lb[k] == a;
        assert(!(l == layer && b == id));
        assert(nb[k] == a);
    }
}

/// Other nodes that have a layer.
pub open spec fn on_layer<V>(nodes: Seq<NodeView<V>>, layer: nat, id: u32) -> spec_fn(
    u32,
) -> bool {
    |x: u32| list_of(nodes, x, layer) is Some && x != id
}

/// A node that has a layer has the layers below it.
pub proof fn lemma_lower_layer<V>(nodes: Seq<NodeView<V>>, id: u32, hi: nat, lo: nat)
    requires
        list_of(nodes, id, hi) is Some,
        lo <= hi,
    ensures
        list_of(nodes, id, lo) is Some,
{
}

/// The neighbours on a layer have the layer, and are not a node that has no neighbours on it.
proof fn lemma_on_layer<V>(nodes: Seq<NodeView<V>>, layer: nat, id: u32)
    requires
        two_way(nodes),
        list_of(nodes, id, layer) matches Some(list) ==> list.len() == 0,
    ensures
        closed_under(nodes, layer, on_layer(nodes, layer, id)),
{
    let p = on_layer(nodes, layer, id);
    assert forall|a: u32, k: int|
        p(a) && list_of(nodes, a, layer) is Some && 0 <= k < list_of(
            nodes,
            a,
            layer,
        )->0.len() implies p(#[trigger] list_of(nodes, a, layer)->0[k]) by {
        let list = list_of(nodes, a, layer)->0;
        let x = list[k];
        assert(list.contains(x));
        assert(linked(nodes, a, x, layer));
        assert(linked(nodes, x, a, layer));
    }
}

/// The hits from which a node gets its neighbours on a layer.
pub proof fn lemma_layer_hits<V>(
    nodes: Seq<NodeView<V>>,
    dist: spec_fn(V, V) -> u64,
    config: HnswConfig,
    id: u32,
    vector: V,
    ep: u32,
    layer: nat,
)
    requires
        two_way(nodes),
        list_of(nodes, id, layer) == Some(Seq::<u32>::empty()),
        list_of(nodes, ep, layer) is Some,
        ep != id,
    ensures
        ({
            let hits = layer_hits(nodes, dist, config, vector, ep, layer);
            let others = chosen(hits, limit_of(config, layer));
            &&& forall|a: int|
                0 <= a < hits.len() ==> list_of(nodes, (#[trigger] hits[a]).0, layer) is Some
                    && hits[a].0 != id
            &&& linkable(nodes, others, id, layer)
            &&& others.len() <= limit_of(config, layer)
        }),
{
    let p = on_layer(nodes, layer, id);
    lemma_on_layer(nodes, layer, id);
    let d = from_vector(dist, vector);
    let start = seq![ep];
    assert forall|i: int| 0 <= i < start.len() implies p(#[trigger] start[i]) by {}
    law_layer_search(nodes, d, start, config.ef_construction as nat, layer, p);
    let hits = layer_hits(nodes, dist, config, vector, ep, layer);
    assert(good_hits(nodes, d, hits));
    let others = chosen(hits, limit_of(config, layer));
    let all = hit_ids(hits);
    assert(picked(hits, all)) by {
        assert forall|i: int| 0 <= i < hits.len() implies all.contains((#[trigger] hits[i]).0) by {
            assert(all[i] == hits[i].0);
        }
    }
    lemma_chosen(hits, all, limit_of(config, layer));
    assert forall|x: u32| #[trigger] others.contains(x) implies list_of(nodes, x, layer) is Some
        && x != id by {
        let k = choose|k: int| 0 <= k < all.len() && all[k] == x;
        assert(hits[k].0 == x);
        assert(p(hits[k].0));
    }
}

/// Lists of the same nodes on the same layers, alike on all layers but one.
pub open spec fn alike_but<V>(a: Seq<NodeView<V>>, b: Seq<NodeView<V>>, layer: nat) -> bool {
    forall|id: u32, l: nat|
        match (list_of(a, id, l), #[trigger] list_of(b, id, l)) {
            (Some(x), Some(y)) => l != layer ==> x == y,
            (None, None) => true,
            _ => false,
        }
}

/// Linking a node on a layer.
pub proof fn lemma_link_layer_ok<V>(
    nodes: Seq<NodeView<V>>,
    dist: spec_fn(V, V) -> u64,
    config: HnswConfig,
    id: u32,
    vector: V,
    ep: u32,
    layer: nat,
)
    requires
        plain(nodes),
        two_way(nodes),
        bounded(nodes, config),
        list_of(nodes, id, layer) == Some(Seq::<u32>::empty()),
        list_of(nodes, ep, layer) is Some,
        ep != id,
    ensures
        ({
            let after = link_layer(nodes, dist, config, id, vector, ep, layer);
            &&& plain(after)
            &&& two_way(after)
            &&& bounded(after, config)
            &&& alike_but(nodes, after, layer)
        }),
{
    let limit = limit_of(config, layer);
    let others = chosen(layer_hits(nodes, dist, config, vector, ep, layer), limit);
    lemma_layer_hits(nodes, dist, config, id, vector, ep, layer);
    let joined = link_back(put_list(nodes, id, layer, others), others, id, layer, others.len());
    lemma_connect(nodes, others, id, layer);
    let after = prune_all(joined, dist, others, layer, limit, others.len());
    lemma_prune_all_ok(joined, dist, others, layer, limit, others.len());
    assert forall|a: u32, l: nat|
        match (list_of(nodes, a, l), #[trigger] list_of(after, a, l)) {
            (Some(x), Some(y)) => l != layer ==> x == y,
            (None, None) => true,
            _ => false,
        } by {
        let m = list_of(joined, a, l);
    }
    assert forall|a: u32, l: nat|
        (#[trigger] list_of(after, a, l)) matches Some(list) ==> list.len() <= limit_of(
            config,
            l,
        ) by {
        let m = list_of(joined, a, l);
        if let Some(list) = list_of(nodes, a, l) {
            assert(list.len() <= limit_of(config, l));
            if l == layer && others.contains(a) {
                let k = choose|k: int| 0 <= k < others.len() && others[k] == a;
                assert(list_of(after, others[k], layer) matches Some(x) ==> x.len() <= limit);
            }
        }
    }
}

/// Linking a node on the layers below `n`.
proof fn lemma_link_layers_ok<V>(
    nodes: Seq<NodeView<V>>,
    dist: spec_fn(V, V) -> u64,
    config: HnswConfig,
    id: u32,
    vector: V,
    ep: u32,
    n: nat,
)
    requires
        plain(nodes),
        two_way(nodes),
        bounded(nodes, config),
        forall|l: nat| l < n ==> #[trigger] list_of(nodes, id, l) == Some(Seq::<u32>::empty()),
        n > 0 ==> list_of(nodes, ep, (n - 1) as nat) is Some,
        ep != id,
    ensures
        ({
            let after = link_layers(nodes, dist, config, id, vector, ep, n);
            &&& plain(after)
            &&& two_way(after)
            &&& bounded(after, config)
            &&& same_nodes(nodes, after)
        }),
    decreases n,
{
    if n > 0 {
        let layer = (n - 1) as nat;
        let hits = layer_hits(nodes, dist, config, vector, ep, layer);
        assert(list_of(nodes, id, layer) == Some(Seq::<u32>::empty()));
        lemma_layer_hits(nodes, dist, config, id, vector, ep, layer);
        lemma_link_layer_ok(nodes, dist, config, id, vector, ep, layer);
        lemma_link_layer_same(nodes, dist, config, id, vector, ep, layer);
        let now = link_layer(nodes, dist, config, id, vector, ep, layer);
        let next = if hits.len() > 0 {
            hits[0].0
        } else {
            ep
        };
        assert(next != id && list_of(nodes, next, layer) is Some);
        assert forall|l: nat| l < layer implies #[trigger] list_of(now, id, l) == Some(
            Seq::<u32>::empty(),
        ) by {
            assert(list_of(nodes, id, l) == Some(Seq::<u32>::empty()));
        }
        if layer > 0 {
            let below = (layer - 1) as nat;
            lemma_lower_layer(nodes, next, layer, below);
            let m = list_of(now, next, below);
        }
        lemma_link_layers_ok(now, dist, config, id, vector, next, layer);
        lemma_same_trans(nodes, now, link_layers(now, dist, config, id, vector, next, layer));
    } else {
        assert(same_nodes(nodes, nodes));
    }
}

/// The node that a descent ends at has the layers that it went through or stopped above.
pub proof fn lemma_descend_ok<V>(
    nodes: Seq<NodeView<V>>,
    dist: spec_fn(V) -> u64,
    ep: u32,
    hi: int,
    lo: int,
    t: nat,
)
    requires
        two_way(nodes),
        0 <= hi,
        0 <= lo,
        t <= hi,
        t <= lo,
        list_of(nodes, ep, hi as nat) is Some,
    ensures
        list_of(nodes, descend(nodes, dist, ep, hi, lo), t) is Some,
    decreases hi - lo + 1,
{
    if hi < lo {
        lemma_lower_layer(nodes, ep, hi as nat, t);
    } else {
        let p = |x: u32| list_of(nodes, x, hi as nat) is Some;
        let start = seq![ep];
        assert(closed_under(nodes, hi as nat, p)) by {
            assert forall|a: u32, k: int|
                p(a) && list_of(nodes, a, hi as nat) is Some && 0 <= k < list_of(
                    nodes,
                    a,
                    hi as nat,
                )->0.len() implies p(#[trigger] list_of(nodes, a, hi as nat)->0[k]) by {
                let list = list_of(nodes, a, hi as nat)->0;
                assert(list.contains(list[k]));
                assert(linked(nodes, a, list[k], hi as nat));
                assert(linked(nodes, list[k], a, hi as nat));
            }
        }
        assert forall|i: int| 0 <= i < start.len() implies p(#[trigger] start[i]) by {}
        law_layer_search(nodes, dist, start, 1, hi as nat, p);
        let hits = layer_search(nodes, dist, start, 1, hi as nat);
        let next = if hits.len() > 0 {
            hits[0].0
        } else {
            ep
        };
        if hits.len() > 0 {
            assert(p(hits[0].0));
        }
        assert(list_of(nodes, next, hi as nat) is Some);
        if hi > 0 {
            lemma_lower_layer(nodes, next, hi as nat, (hi - 1) as nat);
            if t <= hi - 1 {
                lemma_descend_ok(nodes, dist, next, hi - 1, lo, t);
            } else {
                assert(hi - 1 < lo);
            }
        } else {
            assert(descend(nodes, dist, next, -1, lo) == next);
        }
    }
}

// The graph.

/// What insertions keep: links go in both directions, no node has a neighbour twice or more
/// neighbours than it may have, and the entry point is on the top layer.
pub open spec fn sound<V>(g: GraphView<V>, config: HnswConfig) -> bool {
    &&& plain(g.nodes)
    &&& two_way(g.nodes)
    &&& bounded(g.nodes, config)
    &&& g.nodes.len() > 0 ==> {
        &&& g.entry_point is Some
        &&& list_of(g.nodes, g.entry_point->0, g.max_layer) is Some
    }
    &&& g.nodes.len() == 0 ==> g.max_layer == 0
}

/// Where nodes are found after one was added at the end.
proof fn lemma_find_push<V>(nodes: Seq<NodeView<V>>, node: NodeView<V>, id: u32, i: int)
    requires
        0 <= i <= nodes.len(),
    ensures
        find(nodes.push(node), id, i) == (match find(nodes, id, i) {
            Some(k) => Some(k),
            None => if node.id == id {
                Some(nodes.len() as int)
            } else {
                None
            },
        }),
    decreases nodes.len() - i,
{
    let now = nodes.push(node);
    if i < nodes.len() {
        assert(now[i] == nodes[i]);
        lemma_find_push(nodes, node, id, i + 1);
    } else {
        assert(now[i] == node);
        assert(find(now, id, i + 1) is None);
    }
}

/// The lists after a node without neighbours was added.
pub proof fn lemma_pushed_lists<V>(
    nodes: Seq<NodeView<V>>,
    id: u32,
    vector: V,
    level: nat,
    a: u32,
    l: nat,
)
    requires
        find(nodes, id, 0) is None,
    ensures
        list_of(nodes.push(lone_node(id, vector, level)), a, l) == (if a == id {
            if l <= level {
                Some(Seq::<u32>::empty())
            } else {
                None
            }
        } else {
            list_of(nodes, a, l)
        }),
{
    let node = lone_node(id, vector, level);
    let now = nodes.push(node);
    lemma_find_push(nodes, node, a, 0);
    lemma_find(nodes, a, 0);
    if a == id {
        assert(now[nodes.len() as int] == node);
    } else if let Some(k) = find(nodes, a, 0) {
        assert(now[k] == nodes[k]);
    }
}

/// Adding a node without neighbours keeps the links.
pub proof fn lemma_pushed_ok<V>(
    nodes: Seq<NodeView<V>>,
    config: HnswConfig,
    id: u32,
    vector: V,
    level: nat,
)
    requires
        plain(nodes),
        two_way(nodes),
        bounded(nodes, config),
        find(nodes, id, 0) is None,
    ensures
        plain(nodes.push(lone_node(id, vector, level))),
        two_way(nodes.push(lone_node(id, vector, level))),
        bounded(nodes.push(lone_node(id, vector, level)), config),
{
    let now = nodes.push(lone_node(id, vector, level));
    assert forall|a: u32, l: nat|
        (#[trigger] list_of(now, a, l)) matches Some(list) ==> list.no_duplicates() && list.len()
            <= limit_of(config, l) by {
        lemma_pushed_lists(nodes, id, vector, level, a, l);
        let m = list_of(nodes, a, l);
    }
    assert forall|a: u32, b: u32, l: nat| #[trigger] linked(now, a, b, l) implies a != b && linked(
        now,
        b,
        a,
        l,
    ) by {
        lemma_pushed_lists(nodes, id, vector, level, a, l);
        lemma_pushed_lists(nodes, id, vector, level, b, l);
        assert(linked(nodes, a, b, l));
        assert(linked(nodes, b, a, l));
    }
}

/// An insertion of a new node keeps links in both directions and neighbour lists bounded; the graph
/// has the nodes that it had and the new one, with its vector and layers; the top layer never gets
/// lower, and the entry point is on it.
pub proof fn law_insert_keeps_links<V>(
    g: GraphView<V>,
    dist: spec_fn(V, V) -> u64,
    config: HnswConfig,
    id: u32,
    vector: V,
    level: nat,
)
    requires
        sound(g, config),
        find(g.nodes, id, 0) is None,
    ensures
        ({
            let after = graph_insert(g, dist, config, id, vector, level);
            &&& sound(after, config)
            &&& same_nodes(g.nodes.push(lone_node(id, vector, level)), after.nodes)
            &&& after.nodes.len() == g.nodes.len() + 1
            &&& find(after.nodes, id, 0) is Some
            &&& after.max_layer >= g.max_layer
            &&& after.max_layer >= level
            &&& after.entry_point is Some
            &&& g.nodes.len() == 0 ==> after.entry_point == Some(id)
            &&& forall|a: u32, b: u32, layer: nat| #[trigger]
                linked(after.nodes, a, b, layer) ==> find(after.nodes, b, 0) is Some && linked(
                    after.nodes,
                    b,
                    a,
                    layer,
                )
        }),
{
    let node = lone_node(id, vector, level);
    let after = graph_insert(g, dist, config, id, vector, level);
    let pushed = g.nodes.push(node);
    lemma_pushed_ok(g.nodes, config, id, vector, level);
    lemma_find(pushed, id, 0);
    assert(pushed[g.nodes.len() as int].id == id);
    if g.nodes.len() == 0 {
        assert(pushed =~= seq![node]);
        lemma_pushed_lists(g.nodes, id, vector, level, id, level);
        assert(same_nodes(pushed, after.nodes));
    } else {
        let entry = g.entry_point->0;
        let top = if level < g.max_layer {
            level
        } else {
            g.max_layer
        };
        let d = from_vector(dist, vector);
        let ep = descend(g.nodes, d, entry, g.max_layer as int, 1int + level);
        lemma_descend_ok(g.nodes, d, entry, g.max_layer as int, 1int + level, top);
        assert(ep != id);
        lemma_pushed_lists(g.nodes, id, vector, level, ep, top);
        assert forall|l: nat| l < top + 1 implies #[trigger] list_of(pushed, id, l) == Some(
            Seq::<u32>::empty(),
        ) by {
            lemma_pushed_lists(g.nodes, id, vector, level, id, l);
        }
        lemma_link_layers_ok(pushed, dist, config, id, vector, ep, top + 1);
        let e = after.entry_point->0;
        lemma_pushed_lists(g.nodes, id, vector, level, e, after.max_layer);
        assert(list_of(pushed, e, after.max_layer) is Some);
        lemma_find_same(pushed, after.nodes, e, 0);
        lemma_find(pushed, e, 0);
    }
    lemma_find_same(pushed, after.nodes, id, 0);
}

/// What a search returns: at most `k` nodes, in order of distance, none twice, each with its
/// distance; and something, if the graph has nodes and `k` is not zero.
pub proof fn law_search_finds_nodes_in_order<V>(
    g: GraphView<V>,
    config: HnswConfig,
    dist: spec_fn(V) -> u64,
    k: nat,
)
    requires
        sound(g, config),
    ensures
        ({
            let hits = graph_search(g, dist, config.ef_search as nat, k);
            &&& good_hits(g.nodes, dist, hits)
            &&& hits.len() <= k
            &&& g.nodes.len() > 0 && k > 0 ==> hits.len() > 0
            &&& g.nodes.len() == 0 ==> hits.len() == 0
        }),
{
    if g.nodes.len() > 0 {
        let entry = g.entry_point->0;
        let ep = descend(g.nodes, dist, entry, g.max_layer as int, 1);
        lemma_descend_ok(g.nodes, dist, entry, g.max_layer as int, 1, 0);
        let ef = if config.ef_search > k {
            config.ef_search as nat
        } else {
            k
        };
        let p = |x: u32| true;
        law_layer_search(g.nodes, dist, seq![ep], ef, 0, p);
        let hits = layer_search(g.nodes, dist, seq![ep], ef, 0);
        let t = cut(hits, k);
        assert forall|a: int| 0 <= a < t.len() implies #[trigger] t[a] == hits[a] by {}
    }
}

/// A new graph is sound.
pub proof fn law_new_graph_is_sound<V>(g: GraphView<V>, config: HnswConfig)
    requires
        g.nodes.len() == 0,
        g.max_layer == 0,
    ensures
        sound(g, config),
{
}

} // verus!
