//! How near the hits of a search are, and how many there are.
use crate::index::hnsw::links::{
    awaits, good_hits, hit_of, hits_in, law_layer_search, lemma_add_good, lemma_add_members,
    lemma_all_visited, lemma_cut_good, lemma_place_of, lemma_reach_closed, lemma_reached,
    lemma_room, lemma_run_ok, lemma_start_full, lemma_start_ok, linked, reachable,
    reachable_if_there, reached, reached_in, sound, walk_ok,
};
use crate::index::hnsw::{
    add_hit, cut, descend, find, graph_search, hit_ids, hit_place, layer_search, lemma_find,
    lemma_step_left, list_of, walk_left, walk_list, walk_look, walk_over, walk_run, walk_start,
    walk_step, GraphView, Hit, HnswConfig, NodeView, Walk,
};
use vstd::prelude::*;

verus! {

/// A node is among the hits, or there are as many hits as asked for and none is farther than it.
pub open spec fn hit_or_no_nearer<V>(
    nodes: Seq<NodeView<V>>,
    dist: spec_fn(V) -> u64,
    hits: Seq<Hit>,
    ef: nat,
    id: u32,
) -> bool {
    hits.contains(hit_of(nodes, dist, id)) || (hits.len() == ef && forall|a: int|
        0 <= a < hits.len() ==> (#[trigger] hits[a]).1 <= hit_of(nodes, dist, id).1)
}

spec fn in_order(s: Seq<Hit>) -> bool {
    forall|a: int, b: int| 0 <= a < b < s.len() ==> (#[trigger] s[a]).1 <= (#[trigger] s[b]).1
}

/// Nodes with their distances.
spec fn measured_right<V>(nodes: Seq<NodeView<V>>, dist: spec_fn(V) -> u64, s: Seq<Hit>) -> bool {
    forall|a: int|
        0 <= a < s.len() ==> find(nodes, (#[trigger] s[a]).0, 0) is Some && s[a] == hit_of(
            nodes,
            dist,
            s[a].0,
        )
}

/// Every visited node was judged: it is among the results, or none of these is farther.
spec fn judged<V>(nodes: Seq<NodeView<V>>, dist: spec_fn(V) -> u64, ef: nat, w: Walk) -> bool {
    forall|id: u32| #[trigger]
        w.visited.contains(id) && find(nodes, id, 0) is Some ==> hit_or_no_nearer(
            nodes,
            dist,
            w.results,
            ef,
            id,
        )
}

/// The neighbours of results were visited, but for those of candidates and of `but`.
spec fn followed<V>(
    nodes: Seq<NodeView<V>>,
    dist: spec_fn(V) -> u64,
    layer: nat,
    w: Walk,
    but: Option<u32>,
) -> bool {
    forall|a: u32, b: u32|
        w.results.contains(hit_of(nodes, dist, a)) && find(nodes, a, 0) is Some && #[trigger] linked(
            nodes,
            a,
            b,
            layer,
        ) ==> w.visited.contains(b) || awaits(w, a) || but == Some(a)
}

spec fn steady<V>(
    nodes: Seq<NodeView<V>>,
    dist: spec_fn(V) -> u64,
    ef: nat,
    layer: nat,
    w: Walk,
    but: Option<u32>,
) -> bool {
    &&& walk_ok(nodes, dist, ef, w, |id: u32| true)
    &&& in_order(w.candidates)
    &&& measured_right(nodes, dist, w.candidates)
    &&& judged(nodes, dist, ef, w)
    &&& followed(nodes, dist, layer, w, but)
}

proof fn lemma_add_order<V>(nodes: Seq<NodeView<V>>, dist: spec_fn(V) -> u64, s: Seq<Hit>, id: u32)
    requires
        in_order(s),
        measured_right(nodes, dist, s),
        find(nodes, id, 0) is Some,
    ensures
        in_order(add_hit(s, hit_of(nodes, dist, id))),
        measured_right(nodes, dist, add_hit(s, hit_of(nodes, dist, id))),
{
    let x = hit_of(nodes, dist, id);
    lemma_place_of(s, x.1, s.len());
    let q = hit_place(s, x.1, s.len()) as int;
    let t = add_hit(s, x);
    assert forall|a: int| 0 <= a < t.len() implies (#[trigger] t[a]) == (if a < q {
        s[a]
    } else if a == q {
        x
    } else {
        s[a - 1]
    }) by {}
    assert forall|a: int, b: int| 0 <= a < b < t.len() implies (#[trigger] t[a]).1 <= (
    #[trigger] t[b]).1 by {
        if b < q {
            assert(s[a].1 <= s[b].1);
        } else if b == q {
            if a < q - 1 {
                assert(s[a].1 <= s[q - 1].1);
            }
        } else if a == q {
            assert(x.1 < s[b - 1].1);
        } else if a < q {
            if a < b - 1 {
                assert(s[a].1 <= s[b - 1].1);
            }
        } else {
            assert(s[a - 1].1 <= s[b - 1].1);
        }
    }
    assert forall|a: int| 0 <= a < t.len() implies find(nodes, (#[trigger] t[a]).0, 0) is Some
        && t[a] == hit_of(nodes, dist, t[a].0) by {
        if a < q {
            assert(find(nodes, s[a].0, 0) is Some);
        } else if a > q {
            assert(find(nodes, s[a - 1].0, 0) is Some);
        }
    }
}

proof fn lemma_add_awaits(w: Walk, v: Walk, x: Hit)
    requires
        v.candidates == add_hit(w.candidates, x),
    ensures
        awaits(v, x.0),
        forall|o: u32| #[trigger] awaits(w, o) ==> awaits(v, o),
{
    lemma_add_members(w.candidates, x);
    assert(v.candidates.contains(x));
    let b = choose|b: int| 0 <= b < v.candidates.len() && v.candidates[b] == x;
    assert(v.candidates[b].0 == x.0);
    assert forall|o: u32| #[trigger] awaits(w, o) implies awaits(v, o) by {
        let a = choose|a: int| 0 <= a < w.candidates.len() && (#[trigger] w.candidates[a]).0 == o;
        assert(w.candidates.contains(w.candidates[a]));
        assert(v.candidates.contains(w.candidates[a]));
        let c = choose|c: int| 0 <= c < v.candidates.len() && v.candidates[c] == w.candidates[a];
        assert(v.candidates[c].0 == o);
    }
}

/// What is cut off is no nearer than what is left.
proof fn lemma_cut_judged<V>(
    nodes: Seq<NodeView<V>>,
    dist: spec_fn(V) -> u64,
    ef: nat,
    s: Seq<Hit>,
    id: u32,
)
    requires
        good_hits(nodes, dist, s),
        s.contains(hit_of(nodes, dist, id)),
    ensures
        hit_or_no_nearer(nodes, dist, cut(s, ef), ef, id),
{
    let x = hit_of(nodes, dist, id);
    let k = choose|k: int| 0 <= k < s.len() && s[k] == x;
    let t = cut(s, ef);
    if k < t.len() {
        assert(t[k] == x);
    } else {
        assert forall|a: int| 0 <= a < t.len() implies (#[trigger] t[a]).1 <= x.1 by {
            assert(t[a] == s[a]);
            assert(s[a].1 <= s[k].1);
        }
    }
}

proof fn lemma_start_steady<V>(
    nodes: Seq<NodeView<V>>,
    dist: spec_fn(V) -> u64,
    entry_points: Seq<u32>,
    n: nat,
)
    requires
        n <= entry_points.len(),
    ensures
        in_order(walk_start(nodes, dist, entry_points, n).candidates),
        measured_right(nodes, dist, walk_start(nodes, dist, entry_points, n).candidates),
    decreases n,
{
    if n > 0 {
        lemma_start_steady(nodes, dist, entry_points, (n - 1) as nat);
        let w = walk_start(nodes, dist, entry_points, (n - 1) as nat);
        let id = entry_points[n - 1];
        if !w.visited.contains(id) && find(nodes, id, 0) is Some {
            lemma_add_order(nodes, dist, w.candidates, id);
        }
    }
}

proof fn lemma_look_steady<V>(
    nodes: Seq<NodeView<V>>,
    dist: spec_fn(V) -> u64,
    ef: nat,
    layer: nat,
    w: Walk,
    id: u32,
    but: Option<u32>,
)
    requires
        ef > 0,
        steady(nodes, dist, ef, layer, w, but),
    ensures
        steady(nodes, dist, ef, layer, walk_look(nodes, dist, ef, w, id), but),
        walk_look(nodes, dist, ef, w, id).visited == w.visited.insert(id),
{
    let p = |x: u32| true;
    let v = walk_look(nodes, dist, ef, w, id);
    crate::index::hnsw::links::lemma_look_ok(nodes, dist, ef, w, id, p);
    if w.visited.contains(id) {
        assert(w.visited.insert(id) =~= w.visited);
    } else if find(nodes, id, 0) is Some {
        let x = hit_of(nodes, dist, id);
        if w.results.len() < ef || w.results.len() == 0 || x.1 < w.results.last().1 {
            let t = add_hit(w.results, x);
            lemma_add_order(nodes, dist, w.candidates, id);
            lemma_add_good(nodes, dist, w.results, x, w.visited, p);
            lemma_add_members(w.results, x);
            lemma_add_awaits(w, v, x);
            assert forall|o: u32| #[trigger]
                v.visited.contains(o) && find(nodes, o, 0) is Some implies hit_or_no_nearer(
                nodes,
                dist,
                v.results,
                ef,
                o,
            ) by {
                let y = hit_of(nodes, dist, o);
                if t.contains(y) {
                    lemma_cut_judged(nodes, dist, ef, t, o);
                } else {
                    assert(o != id);
                    assert(w.visited.contains(o));
                    assert(!w.results.contains(y));
                    let last = w.results.len() - 1;
                    assert(w.results[last].1 <= y.1);
                    assert forall|a: int| 0 <= a < v.results.len() implies (
                    #[trigger] v.results[a]).1 <= y.1 by {
                        assert(v.results[a] == t[a]);
                        assert(t.contains(t[a]));
                        if w.results.contains(t[a]) {
                            let b = choose|b: int|
                                0 <= b < w.results.len() && w.results[b] == t[a];
                            assert(w.results[b].1 <= y.1);
                        }
                    }
                }
            }
            assert forall|a: u32, b: u32|
                v.results.contains(hit_of(nodes, dist, a)) && find(nodes, a, 0) is Some
                    && #[trigger] linked(nodes, a, b, layer) implies v.visited.contains(b)
                || awaits(v, a) || but == Some(a) by {
                if a != id {
                    let y = hit_of(nodes, dist, a);
                    let k = choose|k: int| 0 <= k < v.results.len() && v.results[k] == y;
                    assert(t[k] == y);
                    assert(t.contains(y));
                    assert(w.results.contains(y));
                    assert(awaits(w, a) ==> awaits(v, a));
                }
            }
        } else {
            let last = w.results.len() - 1;
            assert forall|o: u32| #[trigger]
                v.visited.contains(o) && find(nodes, o, 0) is Some implies hit_or_no_nearer(
                nodes,
                dist,
                v.results,
                ef,
                o,
            ) by {
                if o == id {
                    assert forall|a: int| 0 <= a < v.results.len() implies (
                    #[trigger] v.results[a]).1 <= x.1 by {
                        if a < last {
                            assert(w.results[a].1 <= w.results[last].1);
                        }
                    }
                } else {
                    assert(w.visited.contains(o));
                }
            }
            lemma_same_awaits(w, v);
        }
    } else {
        assert forall|o: u32| #[trigger]
            v.visited.contains(o) && find(nodes, o, 0) is Some implies hit_or_no_nearer(
            nodes,
            dist,
            v.results,
            ef,
            o,
        ) by {
            assert(w.visited.contains(o));
        }
        lemma_same_awaits(w, v);
    }
}

proof fn lemma_same_awaits(w: Walk, v: Walk)
    requires
        w.candidates == v.candidates,
    ensures
        forall|o: u32| #[trigger] awaits(w, o) ==> awaits(v, o),
{
    assert forall|o: u32| #[trigger] awaits(w, o) implies awaits(v, o) by {
        let a = choose|a: int| 0 <= a < w.candidates.len() && (#[trigger] w.candidates[a]).0 == o;
        assert(v.candidates[a].0 == o);
    }
}

proof fn lemma_list_steady<V>(
    nodes: Seq<NodeView<V>>,
    dist: spec_fn(V) -> u64,
    ef: nat,
    layer: nat,
    w: Walk,
    list: Seq<u32>,
    n: nat,
    but: Option<u32>,
)
    requires
        ef > 0,
        n <= list.len(),
        steady(nodes, dist, ef, layer, w, but),
    ensures
        ({
            let v = walk_list(nodes, dist, ef, w, list, n);
            &&& steady(nodes, dist, ef, layer, v, but)
            &&& forall|id: u32| #[trigger] w.visited.contains(id) ==> v.visited.contains(id)
            &&& forall|i: int| 0 <= i < n ==> v.visited.contains(#[trigger] list[i])
        }),
    decreases n,
{
    if n > 0 {
        lemma_list_steady(nodes, dist, ef, layer, w, list, (n - 1) as nat, but);
        let v = walk_list(nodes, dist, ef, w, list, (n - 1) as nat);
        lemma_look_steady(nodes, dist, ef, layer, v, list[n - 1], but);
    }
}

proof fn lemma_step_steady<V>(
    nodes: Seq<NodeView<V>>,
    dist: spec_fn(V) -> u64,
    ef: nat,
    layer: nat,
    w: Walk,
)
    requires
        ef > 0,
        steady(nodes, dist, ef, layer, w, None),
        w.candidates.len() > 0,
    ensures
        ({
            let v = walk_step(nodes, dist, ef, layer, w);
            &&& steady(nodes, dist, ef, layer, v, None)
            &&& forall|id: u32| #[trigger] w.visited.contains(id) ==> v.visited.contains(id)
        }),
{
    let p = |x: u32| true;
    let id = w.candidates[0].0;
    let u = Walk { candidates: w.candidates.skip(1), ..w };
    let v = walk_step(nodes, dist, ef, layer, w);
    assert forall|a: int| 0 <= a < u.candidates.len() implies #[trigger] u.candidates[a]
        == w.candidates[a + 1] by {}
    assert(hits_in(u.candidates, u.visited, p)) by {
        assert forall|a: int| 0 <= a < u.candidates.len() implies u.visited.contains(
            (#[trigger] u.candidates[a]).0,
        ) && p(u.candidates[a].0) by {
            assert(w.visited.contains(w.candidates[a + 1].0));
        }
    }
    assert(measured_right(nodes, dist, u.candidates)) by {
        assert forall|a: int| 0 <= a < u.candidates.len() implies find(
            nodes,
            (#[trigger] u.candidates[a]).0,
            0,
        ) is Some && u.candidates[a] == hit_of(nodes, dist, u.candidates[a].0) by {
            assert(find(nodes, w.candidates[a + 1].0, 0) is Some);
        }
    }
    assert(followed(nodes, dist, layer, u, Some(id))) by {
        assert forall|a: u32, b: u32|
            u.results.contains(hit_of(nodes, dist, a)) && find(nodes, a, 0) is Some
                && #[trigger] linked(nodes, a, b, layer) implies u.visited.contains(b) || awaits(
            u,
            a,
        ) || Some(id) == Some(a) by {
            if awaits(w, a) && a != id {
                let k = choose|k: int|
                    0 <= k < w.candidates.len() && (#[trigger] w.candidates[k]).0 == a;
                assert(u.candidates[k - 1].0 == a);
            }
        }
    }
    assert(steady(nodes, dist, ef, layer, u, Some(id)));
    lemma_find(nodes, id, 0);
    match list_of(nodes, id, layer) {
        Some(list) => {
            lemma_list_steady(nodes, dist, ef, layer, u, list, list.len(), Some(id));
            assert forall|a: u32, b: u32|
                v.results.contains(hit_of(nodes, dist, a)) && find(nodes, a, 0) is Some
                    && #[trigger] linked(nodes, a, b, layer) implies v.visited.contains(b)
                || awaits(v, a) by {
                if a == id {
                    let k = choose|k: int| 0 <= k < list.len() && list[k] == b;
                    assert(v.visited.contains(list[k]));
                }
            }
        },
        None => {
            assert forall|a: u32, b: u32|
                v.results.contains(hit_of(nodes, dist, a)) && find(nodes, a, 0) is Some
                    && #[trigger] linked(nodes, a, b, layer) implies v.visited.contains(b)
                || awaits(v, a) by {
                assert(a != id);
            }
        },
    }
}

proof fn lemma_run_steady<V>(
    nodes: Seq<NodeView<V>>,
    dist: spec_fn(V) -> u64,
    ef: nat,
    layer: nat,
    w: Walk,
)
    requires
        ef > 0,
        steady(nodes, dist, ef, layer, w, None),
    ensures
        ({
            let v = walk_run(nodes, dist, ef, layer, w);
            &&& judged(nodes, dist, ef, v)
            &&& forall|a: u32, b: u32|
                v.results.contains(hit_of(nodes, dist, a)) && find(nodes, a, 0) is Some
                    && #[trigger] linked(nodes, a, b, layer) ==> v.visited.contains(b)
            &&& forall|id: u32| #[trigger] w.visited.contains(id) ==> v.visited.contains(id)
        }),
    decreases walk_left(nodes, w),
{
    if w.candidates.len() == 0 {
    } else if walk_over(w, ef) {
        assert forall|a: u32, b: u32|
            w.results.contains(hit_of(nodes, dist, a)) && find(nodes, a, 0) is Some
                && #[trigger] linked(nodes, a, b, layer) implies w.visited.contains(b) by {
            if awaits(w, a) {
                let k = choose|k: int|
                    0 <= k < w.candidates.len() && (#[trigger] w.candidates[k]).0 == a;
                let j = choose|j: int|
                    0 <= j < w.results.len() && w.results[j] == hit_of(nodes, dist, a);
                let last = w.results.len() - 1;
                assert(w.candidates[k] == hit_of(nodes, dist, a));
                if j < last {
                    assert(w.results[j].1 <= w.results[last].1);
                }
                if 0 < k {
                    assert(w.candidates[0].1 <= w.candidates[k].1);
                }
            }
        }
    } else {
        lemma_step_left(nodes, dist, ef, layer, w);
        lemma_step_steady(nodes, dist, ef, layer, w);
        let v = walk_step(nodes, dist, ef, layer, w);
        lemma_run_steady(nodes, dist, ef, layer, v);
        assert forall|id: u32| #[trigger] w.visited.contains(id) implies walk_run(
            nodes,
            dist,
            ef,
            layer,
            w,
        ).visited.contains(id) by {
            assert(v.visited.contains(id));
        }
    }
}

/// A search on a layer stops only where it cannot get nearer: each entry point, and each neighbour of
/// a hit, is a hit itself, or there are `ef` hits and none is farther than it.
pub proof fn law_layer_search_is_locally_best<V>(
    nodes: Seq<NodeView<V>>,
    dist: spec_fn(V) -> u64,
    entry_points: Seq<u32>,
    ef: nat,
    layer: nat,
)
    requires
        ef > 0,
    ensures
        ({
            let hits = layer_search(nodes, dist, entry_points, ef, layer);
            &&& forall|i: int|
                0 <= i < entry_points.len() && find(nodes, #[trigger] entry_points[i], 0) is Some
                    ==> hit_or_no_nearer(nodes, dist, hits, ef, entry_points[i])
            &&& forall|a: int, b: u32|
                0 <= a < hits.len() && #[trigger] linked(nodes, hits[a].0, b, layer) && find(
                    nodes,
                    b,
                    0,
                ) is Some ==> hit_or_no_nearer(nodes, dist, hits, ef, b)
        }),
{
    let p = |x: u32| true;
    let w = walk_start(nodes, dist, entry_points, entry_points.len());
    lemma_start_ok(nodes, dist, entry_points, entry_points.len(), p);
    lemma_start_full(nodes, dist, entry_points, entry_points.len());
    lemma_start_steady(nodes, dist, entry_points, entry_points.len());
    lemma_cut_good(nodes, dist, w.results, ef, w.visited, p);
    let v = Walk { results: cut(w.results, ef), ..w };
    lemma_same_awaits(w, v);
    assert(judged(nodes, dist, ef, v)) by {
        assert forall|id: u32| #[trigger]
            v.visited.contains(id) && find(nodes, id, 0) is Some implies hit_or_no_nearer(
            nodes,
            dist,
            v.results,
            ef,
            id,
        ) by {
            assert(w.visited.contains(id));
            lemma_cut_judged(nodes, dist, ef, w.results, id);
        }
    }
    assert(followed(nodes, dist, layer, v, None)) by {
        assert forall|a: u32, b: u32|
            v.results.contains(hit_of(nodes, dist, a)) && find(nodes, a, 0) is Some
                && #[trigger] linked(nodes, a, b, layer) implies v.visited.contains(b) || awaits(
            v,
            a,
        ) by {
            let k = choose|k: int|
                0 <= k < v.results.len() && v.results[k] == hit_of(nodes, dist, a);
            assert(v.visited.contains(v.results[k].0));
            assert(w.visited.contains(a));
            assert(awaits(w, a));
        }
    }
    lemma_run_steady(nodes, dist, ef, layer, v);
    lemma_run_ok(nodes, dist, ef, layer, v, p);
    let end = walk_run(nodes, dist, ef, layer, v);
    let hits = end.results;
    assert forall|i: int|
        0 <= i < entry_points.len() && find(
            nodes,
            #[trigger] entry_points[i],
            0,
        ) is Some implies hit_or_no_nearer(nodes, dist, hits, ef, entry_points[i]) by {
        assert(w.visited.contains(entry_points[i]));
        assert(v.visited.contains(entry_points[i]));
        assert(end.visited.contains(entry_points[i]));
    }
    assert forall|a: int, b: u32|
        0 <= a < hits.len() && #[trigger] linked(nodes, hits[a].0, b, layer) && find(
            nodes,
            b,
            0,
        ) is Some implies hit_or_no_nearer(nodes, dist, hits, ef, b) by {
        let id = hits[a].0;
        assert(find(nodes, hits[a].0, 0) is Some);
        assert(hits[a] == hit_of(nodes, dist, id));
        assert(hits.contains(hits[a]));
        assert(end.visited.contains(b));
    }
}

/// The hits are distinct nodes; if every node that can be reached is among them, there are as many.
proof fn lemma_as_many<V>(
    nodes: Seq<NodeView<V>>,
    dist: spec_fn(V) -> u64,
    entry_points: Seq<u32>,
    layer: nat,
    hits: Seq<Hit>,
)
    requires
        forall|id: u32| #[trigger]
            reachable(nodes, entry_points, layer, id) ==> hits.contains(hit_of(nodes, dist, id)),
    ensures
        reached(nodes, entry_points, layer).len() <= hits.len(),
{
    lemma_reached(nodes, entry_points, layer);
    let found = hit_ids(hits);
    let all = reached(nodes, entry_points, layer);
    assert(all.subset_of(found.to_set())) by {
        assert forall|id: u32| all.contains(id) implies found.to_set().contains(id) by {
            assert(hits.contains(hit_of(nodes, dist, id)));
            let a = choose|a: int| 0 <= a < hits.len() && hits[a] == hit_of(nodes, dist, id);
            assert(found[a] == id);
            assert(found.contains(id));
        }
    }
    vstd::seq_lib::seq_to_set_is_finite(found);
    vstd::set_lib::lemma_len_subset(all, found.to_set());
    found.lemma_cardinality_of_set();
}

/// How many nodes a search on a layer finds: as many as asked for, or all that can be reached if these
/// are fewer.
pub proof fn law_layer_search_finds_enough<V>(
    nodes: Seq<NodeView<V>>,
    dist: spec_fn(V) -> u64,
    entry_points: Seq<u32>,
    ef: nat,
    layer: nat,
)
    ensures
        ({
            let hits = layer_search(nodes, dist, entry_points, ef, layer);
            let all = reached(nodes, entry_points, layer);
            &&& hits.len() <= ef
            &&& hits.len() <= all.len()
            &&& hits.len() == ef || hits.len() == all.len()
            &&& hits.len() < ef || ef == all.len() ==> forall|id: u32| #[trigger]
                reachable(nodes, entry_points, layer, id) ==> hits.contains(
                    hit_of(nodes, dist, id),
                )
            &&& forall|a: int|
                0 <= a < hits.len() ==> reachable(nodes, entry_points, layer, (#[trigger] hits[a]).0)
        }),
{
    let hits = layer_search(nodes, dist, entry_points, ef, layer);
    let all = reached(nodes, entry_points, layer);
    let p = reachable_if_there(nodes, entry_points, layer);
    lemma_reach_closed(nodes, entry_points, layer);
    law_layer_search(nodes, dist, entry_points, ef, layer, p);
    let ids = Set::new(|id: u32| true);
    assert(hits_in(hits, ids, p));
    lemma_room(nodes, dist, entry_points, layer, hits, ids);
    assert forall|a: int| 0 <= a < hits.len() implies reachable(
        nodes,
        entry_points,
        layer,
        (#[trigger] hits[a]).0,
    ) by {
        assert(find(nodes, hits[a].0, 0) is Some);
        assert(p(hits[a].0));
    }
    if hits.len() < ef {
        law_layer_search_is_locally_best(nodes, dist, entry_points, ef, layer);
        let mine = Set::new(
            |id: u32| find(nodes, id, 0) is Some ==> hits.contains(hit_of(nodes, dist, id)),
        );
        assert forall|i: int|
            0 <= i < entry_points.len() && find(
                nodes,
                #[trigger] entry_points[i],
                0,
            ) is Some implies mine.contains(entry_points[i]) by {
            assert(hit_or_no_nearer(nodes, dist, hits, ef, entry_points[i]));
        }
        assert forall|a: u32, b: u32|
            mine.contains(a) && #[trigger] linked(nodes, a, b, layer) implies mine.contains(b) by {
            if find(nodes, b, 0) is Some {
                assert(find(nodes, a, 0) is Some);
                let k = choose|k: int| 0 <= k < hits.len() && hits[k] == hit_of(nodes, dist, a);
                assert(linked(nodes, hits[k].0, b, layer));
                assert(hit_or_no_nearer(nodes, dist, hits, ef, b));
            }
        }
        assert forall|id: u32| #[trigger]
            reachable(nodes, entry_points, layer, id) implies hits.contains(
            hit_of(nodes, dist, id),
        ) by {
            let n = choose|n: nat| reached_in(nodes, entry_points, layer, id, n);
            lemma_all_visited(nodes, entry_points, layer, mine, id, n);
            assert(find(nodes, id, 0) is Some);
        }
        lemma_as_many(nodes, dist, entry_points, layer, hits);
    }
}

/// No neighbour of the node on the layer is nearer than the node.
pub open spec fn no_neighbour_nearer<V>(
    nodes: Seq<NodeView<V>>,
    dist: spec_fn(V) -> u64,
    id: u32,
    layer: nat,
) -> bool {
    forall|b: u32| #[trigger]
        linked(nodes, id, b, layer) && find(nodes, b, 0) is Some ==> hit_of(nodes, dist, id).1
            <= hit_of(nodes, dist, b).1
}

/// A descent goes nowhere farther, and on the last layer that it searches it stops only where no
/// neighbour is nearer. It does not move if there is no layer to search.
pub proof fn law_descent<V>(
    nodes: Seq<NodeView<V>>,
    dist: spec_fn(V) -> u64,
    ep: u32,
    hi: int,
    lo: int,
)
    requires
        0 <= lo,
        find(nodes, ep, 0) is Some,
    ensures
        ({
            let end = descend(nodes, dist, ep, hi, lo);
            &&& find(nodes, end, 0) is Some
            &&& hit_of(nodes, dist, end).1 <= hit_of(nodes, dist, ep).1
            &&& hi >= lo ==> no_neighbour_nearer(nodes, dist, end, lo as nat)
            &&& hi < lo ==> end == ep
        }),
    decreases hi - lo + 1,
{
    if hi >= lo {
        let start = seq![ep];
        let hits = layer_search(nodes, dist, start, 1, hi as nat);
        let p = |x: u32| true;
        law_layer_search(nodes, dist, start, 1, hi as nat, p);
        law_layer_search_is_locally_best(nodes, dist, start, 1, hi as nat);
        assert(start[0] == ep);
        assert(hits.len() == 1);
        let next = hits[0].0;
        assert(find(nodes, hits[0].0, 0) is Some);
        assert(hits[0] == hit_of(nodes, dist, next));
        assert(hit_or_no_nearer(nodes, dist, hits, 1, start[0]));
        assert(hits[0].1 <= hit_of(nodes, dist, ep).1) by {
            if hits.contains(hit_of(nodes, dist, ep)) {
                let k = choose|k: int| 0 <= k < hits.len() && hits[k] == hit_of(nodes, dist, ep);
                assert(k == 0);
            }
        }
        assert(no_neighbour_nearer(nodes, dist, next, hi as nat)) by {
            assert forall|b: u32| #[trigger]
                linked(nodes, next, b, hi as nat) && find(nodes, b, 0) is Some implies hit_of(
                nodes,
                dist,
                next,
            ).1 <= hit_of(nodes, dist, b).1 by {
                assert(linked(nodes, hits[0].0, b, hi as nat));
                assert(hit_or_no_nearer(nodes, dist, hits, 1, b));
                if hits.contains(hit_of(nodes, dist, b)) {
                    let k = choose|k: int|
                        0 <= k < hits.len() && hits[k] == hit_of(nodes, dist, b);
                    assert(k == 0);
                }
            }
        }
        law_descent(nodes, dist, next, hi - 1, lo);
    }
}

/// Where the search on the lowest layer starts: a node no farther than the entry point and, if there
/// is a layer above the lowest, than its neighbours on the layer above.
pub open spec fn good_start<V>(g: GraphView<V>, dist: spec_fn(V) -> u64, start: u32) -> bool {
    &&& find(g.nodes, start, 0) is Some
    &&& hit_of(g.nodes, dist, start).1 <= hit_of(g.nodes, dist, g.entry_point->0).1
    &&& g.max_layer >= 1 ==> no_neighbour_nearer(g.nodes, dist, start, 1)
    &&& g.max_layer == 0 ==> g.entry_point == Some(start)
}

/// Hits that a search for the `k` nearest owes: as many as asked for, or all that can be reached on
/// the lowest layer if these are fewer; each of them can be reached; and where no more can be reached
/// than a search keeps in view, no node that was left out is nearer than a hit.
pub open spec fn owed_hits<V>(
    g: GraphView<V>,
    dist: spec_fn(V) -> u64,
    ef_search: nat,
    k: nat,
    start: u32,
    hits: Seq<Hit>,
) -> bool {
    let all = reached(g.nodes, seq![start], 0);
    &&& good_start(g, dist, start)
    &&& hits.len() <= k
    &&& hits.len() <= all.len()
    &&& hits.len() == k || hits.len() == all.len()
    &&& forall|a: int|
        0 <= a < hits.len() ==> reachable(g.nodes, seq![start], 0, (#[trigger] hits[a]).0)
    &&& all.len() <= ef_search || all.len() <= k ==> forall|id: u32| #[trigger]
        reachable(g.nodes, seq![start], 0, id) ==> hit_or_no_nearer(g.nodes, dist, hits, k, id)
}

/// The first of the hits of a wider search are owed by one for fewer nodes.
proof fn lemma_cut_no_nearer<V>(
    nodes: Seq<NodeView<V>>,
    dist: spec_fn(V) -> u64,
    s: Seq<Hit>,
    ef: nat,
    k: nat,
    id: u32,
)
    requires
        good_hits(nodes, dist, s),
        k <= ef,
        hit_or_no_nearer(nodes, dist, s, ef, id),
    ensures
        hit_or_no_nearer(nodes, dist, cut(s, k), k, id),
{
    let t = cut(s, k);
    if s.contains(hit_of(nodes, dist, id)) {
        lemma_cut_judged(nodes, dist, k, s, id);
    } else {
        assert forall|a: int| 0 <= a < t.len() implies (#[trigger] t[a]).1 <= hit_of(
            nodes,
            dist,
            id,
        ).1 by {
            assert(t[a] == s[a]);
        }
    }
}

/// What a search returns, counted and compared: see `owed_hits`.
pub proof fn law_search_finds_the_nearest<V>(
    g: GraphView<V>,
    config: HnswConfig,
    dist: spec_fn(V) -> u64,
    k: nat,
) -> (start: u32)
    requires
        sound(g, config),
        g.nodes.len() > 0,
    ensures
        owed_hits(
            g,
            dist,
            config.ef_search as nat,
            k,
            start,
            graph_search(g, dist, config.ef_search as nat, k),
        ),
{
    let entry = g.entry_point->0;
    let start = descend(g.nodes, dist, entry, g.max_layer as int, 1);
    law_descent(g.nodes, dist, entry, g.max_layer as int, 1);
    let wide: nat = vstd::math::max(config.ef_search as int, k as int) as nat;
    let from = seq![start];
    let s = layer_search(g.nodes, dist, from, wide, 0);
    let hits = graph_search(g, dist, config.ef_search as nat, k);
    assert(hits == cut(s, k));
    let p = |x: u32| true;
    law_layer_search(g.nodes, dist, from, wide, 0, p);
    law_layer_search_finds_enough(g.nodes, dist, from, wide, 0);
    assert forall|a: int| 0 <= a < hits.len() implies #[trigger] hits[a] == s[a] by {}
    let all = reached(g.nodes, from, 0);
    if all.len() <= config.ef_search || all.len() <= k {
        assert forall|id: u32| #[trigger]
            reachable(g.nodes, from, 0, id) implies hit_or_no_nearer(
            g.nodes,
            dist,
            hits,
            k,
            id,
        ) by {
            assert(hit_or_no_nearer(g.nodes, dist, s, wide, id));
            lemma_cut_no_nearer(g.nodes, dist, s, wide, k, id);
        }
    }
    start
}

/// A graph without nodes has nothing to find.
pub proof fn law_empty_graph_finds_nothing<V>(
    g: GraphView<V>,
    dist: spec_fn(V) -> u64,
    ef_search: nat,
    k: nat,
)
    requires
        g.nodes.len() == 0,
    ensures
        graph_search(g, dist, ef_search, k).len() == 0,
{
}

} // verus!
