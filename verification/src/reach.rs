//! What breadth-first search finds: every node that open edges reach, each by
//! a path with as few edges as any.

use vstd::prelude::*;
use crate::graph::{Graph, Node};
use crate::network::Network;
use crate::search::{
    answers, breadth_first, closed_under_edges, coherent, continues, expand, explore,
    lemma_coherent_bounded, lemma_expand, lemma_explore, lemma_scan, lemma_trail,
    lemma_trail_continues, lemma_visit, linked, open_edge, open_path, outset, scan, search_result,
    trail, visit, Exploration,
};

verus! {

/// A walk from `start` to `goal` along open edges. It may pass through a node
/// more than once.
pub open spec fn open_walk(net: Network, start: usize, goal: usize, walk: Seq<usize>) -> bool {
    &&& walk.len() >= 1
    &&& walk[0] == start
    &&& walk.last() == goal
    &&& open_path(net, walk)
}

/// Open edges lead from `start` to `goal`.
pub open spec fn reachable(net: Network, start: usize, goal: usize) -> bool {
    exists|walk: Seq<usize>| open_walk(net, start, goal, walk)
}

/// The search has discovered node `v`, and its path to `v` has no more than
/// `bound` nodes.
pub open spec fn found_within(x: Exploration, v: usize, bound: nat) -> bool {
    exists|b: int| 0 <= b < x.order.len() && #[trigger] x.order[b] == v && trail(x, b).len() <= bound
}

/// The order of discovery is the order of distance: paths never get shorter
/// along the order, none is more than one edge longer than the path to the
/// node under expansion, and whatever an open edge reaches from a node that
/// has been expanded is discovered, at most one edge further. Of the node
/// under expansion this holds for the first `upto` of its edges.
pub open spec fn layered(net: Network, x: Exploration, upto: int) -> bool {
    &&& forall|i: int, j: int|
        0 <= i <= j < x.order.len() ==> (#[trigger] trail(x, i)).len() <= (#[trigger] trail(
            x,
            j,
        )).len()
    &&& forall|i: int|
        0 <= i < x.order.len() && x.head < x.order.len() ==> (#[trigger] trail(x, i)).len()
            <= trail(x, x.head as int).len() + 1
    &&& forall|a: int, k: int|
        0 <= a < x.order.len() && (a < x.head || (a == x.head && k < upto)) && 0 <= k
            < net[x.order[a] as int].edges.len() && open_edge(
            #[trigger] net[x.order[a] as int].edges[k],
        ) ==> found_within(x, net[x.order[a] as int].edges[k].0, trail(x, a).len() + 1)
}

/// What was found within a bound stays found within it as the search goes on.
proof fn lemma_found_continues(x: Exploration, y: Exploration, v: usize, bound: nat)
    requires
        continues(y, x),
        x.order.len() == x.via.len(),
        found_within(x, v, bound),
    ensures
        found_within(y, v, bound),
{
    let b = choose|b: int|
        0 <= b < x.order.len() && #[trigger] x.order[b] == v && trail(x, b).len() <= bound;
    lemma_trail_continues(x, y, b);
    assert(y.order[b] == v);
}

/// Looking at the next edge of the node under expansion keeps the layering.
proof fn lemma_visit_layered(net: Network, start: usize, x: Exploration, k: int)
    requires
        closed_under_edges(net),
        coherent(net, start, x),
        x.head < x.order.len(),
        0 <= k < net[x.order[x.head as int] as int].edges.len(),
        layered(net, x, k),
    ensures
        layered(net, visit(x, net[x.order[x.head as int] as int].edges[k]), k + 1),
{
    let u = x.order[x.head as int] as int;
    let e = net[u].edges[k];
    let y = visit(x, e);
    let h = x.head as int;
    if open_edge(e) {
        assert(linked(net, u, e.0 as int));
    }
    lemma_visit(net, start, x, e);
    assert forall|i: int| 0 <= i < x.order.len() implies #[trigger] trail(y, i) == trail(x, i) by {
        lemma_trail_continues(x, y, i);
    }
    let fresh = open_edge(e) && !x.order.contains(e.0);
    if fresh {
        let n = x.order.len() as int;
        assert(y.via[n] == h);
        assert(trail(y, n) == trail(y, h).push(y.order[n]));
        assert(trail(y, n).len() == trail(x, h).len() + 1);
    }
    assert forall|i: int, j: int| 0 <= i <= j < y.order.len() implies (#[trigger] trail(y, i)).len()
        <= (#[trigger] trail(y, j)).len() by {
        if j < x.order.len() {
            assert(trail(x, i).len() <= trail(x, j).len());
        } else if i < x.order.len() {
            assert(trail(x, i).len() <= trail(x, h).len() + 1);
        }
    }
    assert forall|i: int| 0 <= i < y.order.len() && y.head < y.order.len() implies (#[trigger] trail(
        y,
        i,
    )).len() <= trail(y, y.head as int).len() + 1 by {
        if i < x.order.len() {
            assert(trail(x, i).len() <= trail(x, h).len() + 1);
        }
    }
    assert forall|a: int, c: int|
        0 <= a < y.order.len() && (a < y.head || (a == y.head && c < k + 1)) && 0 <= c
            < net[y.order[a] as int].edges.len() && open_edge(
            #[trigger] net[y.order[a] as int].edges[c],
        ) implies found_within(y, net[y.order[a] as int].edges[c].0, trail(y, a).len() + 1) by {
        assert(y.order[a] == x.order[a]);
        let target = net[x.order[a] as int].edges[c].0;
        if a == h && c == k {
            if fresh {
                let n = x.order.len() as int;
                assert(y.order[n] == target);
            } else {
                let b = choose|b: int| 0 <= b < x.order.len() && x.order[b] == e.0;
                assert(trail(x, b).len() <= trail(x, h).len() + 1);
                assert(y.order[b] == target);
                assert(trail(y, b) == trail(x, b));
            }
        } else {
            assert(found_within(x, target, trail(x, a).len() + 1));
            lemma_found_continues(x, y, target, trail(x, a).len() + 1);
        }
    }
}

/// Looking at a run of edges of the node under expansion keeps the layering.
proof fn lemma_scan_layered(net: Network, start: usize, x: Exploration, upto: int)
    requires
        closed_under_edges(net),
        coherent(net, start, x),
        x.head < x.order.len(),
        0 <= upto <= net[x.order[x.head as int] as int].edges.len(),
        layered(net, x, 0),
    ensures
        layered(net, scan(x, net[x.order[x.head as int] as int].edges, upto), upto),
    decreases upto,
{
    if upto > 0 {
        let edges = net[x.order[x.head as int] as int].edges;
        lemma_scan_layered(net, start, x, upto - 1);
        lemma_scan(net, start, x, upto - 1);
        let mid = scan(x, edges, upto - 1);
        assert(mid.order[mid.head as int] == x.order[x.head as int]);
        lemma_visit_layered(net, start, mid, upto - 1);
    }
}

/// Expanding the head of the frontier keeps the layering.
proof fn lemma_expand_layered(net: Network, start: usize, x: Exploration)
    requires
        closed_under_edges(net),
        coherent(net, start, x),
        x.head < x.order.len(),
        layered(net, x, 0),
    ensures
        layered(net, expand(net, x), 0),
{
    let edges = net[x.order[x.head as int] as int].edges;
    let mid = scan(x, edges, edges.len() as int);
    let y = expand(net, x);
    lemma_scan_layered(net, start, x, edges.len() as int);
    lemma_scan(net, start, x, edges.len() as int);
    lemma_expand(net, start, x);
    assert(mid.order[mid.head as int] == x.order[x.head as int]);
    assert forall|i: int| 0 <= i < y.order.len() implies #[trigger] trail(y, i) == trail(mid, i) by {
        lemma_trail_continues(mid, y, i);
    }
    assert forall|i: int| 0 <= i < y.order.len() && y.head < y.order.len() implies (#[trigger] trail(
        y,
        i,
    )).len() <= trail(y, y.head as int).len() + 1 by {
        assert(trail(mid, i).len() <= trail(mid, mid.head as int).len() + 1);
        assert(trail(mid, mid.head as int).len() <= trail(mid, y.head as int).len());
    }
    assert forall|a: int, c: int|
        0 <= a < y.order.len() && (a < y.head || (a == y.head && c < 0)) && 0 <= c
            < net[y.order[a] as int].edges.len() && open_edge(
            #[trigger] net[y.order[a] as int].edges[c],
        ) implies found_within(y, net[y.order[a] as int].edges[c].0, trail(y, a).len() + 1) by {
        let target = net[mid.order[a] as int].edges[c].0;
        assert(found_within(mid, target, trail(mid, a).len() + 1));
        lemma_found_continues(mid, y, target, trail(mid, a).len() + 1);
    }
}

/// The search, run to its end, keeps the layering.
proof fn lemma_explore_layered(net: Network, start: usize, x: Exploration)
    requires
        closed_under_edges(net),
        coherent(net, start, x),
        layered(net, x, 0),
    ensures
        layered(net, explore(net, x), 0),
    decreases net.len() - x.head,
{
    lemma_coherent_bounded(net, start, x);
    if x.head < x.order.len() {
        lemma_expand(net, start, x);
        lemma_expand_layered(net, start, x);
        lemma_explore_layered(net, start, expand(net, x));
    }
}

/// The complete search from `start` is coherent and layered, and has expanded
/// every node it discovered.
pub proof fn lemma_breadth_first(net: Network, start: usize)
    requires
        closed_under_edges(net),
        start < net.len(),
    ensures
        coherent(net, start, breadth_first(net, start)),
        layered(net, breadth_first(net, start), 0),
        breadth_first(net, start).head == breadth_first(net, start).order.len(),
{
    let x = outset(start);
    assert(coherent(net, start, x));
    assert(trail(x, 0) == seq![start]);
    assert(layered(net, x, 0));
    lemma_explore(net, start, x);
    lemma_explore_layered(net, start, x);
}

/// Whatever an open walk from the start reaches, the complete search has
/// discovered, by a path with no more nodes than the walk.
pub proof fn lemma_walk_found(net: Network, start: usize, goal: usize, walk: Seq<usize>)
    requires
        closed_under_edges(net),
        start < net.len(),
        open_walk(net, start, goal, walk),
    ensures
        found_within(breadth_first(net, start), goal, walk.len()),
    decreases walk.len(),
{
    let tree = breadth_first(net, start);
    lemma_breadth_first(net, start);
    if walk.len() == 1 {
        assert(trail(tree, 0) == seq![tree.order[0]]);
        assert(tree.order[0] == goal);
    } else {
        let front = walk.drop_last();
        let middle = front.last();
        assert(middle == walk[walk.len() - 2]);
        assert(open_path(net, front)) by {
            assert forall|i: int| 0 <= i < front.len() - 1 implies linked(
                net,
                (#[trigger] front[i]) as int,
                front[i + 1] as int,
            ) by {
                assert(front[i] == walk[i]);
                assert(linked(net, walk[i] as int, walk[i + 1] as int));
            }
            assert forall|i: int| 0 <= i < front.len() implies (#[trigger] front[i]) < net.len() by {
                assert(front[i] == walk[i]);
            }
        }
        lemma_walk_found(net, start, middle, front);
        let a = choose|a: int|
            0 <= a < tree.order.len() && #[trigger] tree.order[a] == middle && trail(tree, a).len()
                <= front.len();
        assert(linked(net, middle as int, goal as int));
        let k = choose|k: int|
            0 <= k < net[middle as int].edges.len() && (#[trigger] net[middle as int].edges[k]).0
                == goal && open_edge(net[middle as int].edges[k]);
        assert(open_edge(net[tree.order[a] as int].edges[k]));
        assert(found_within(tree, net[tree.order[a] as int].edges[k].0, trail(tree, a).len() + 1));
        let b = choose|b: int|
            0 <= b < tree.order.len() && #[trigger] tree.order[b] == goal && trail(tree, b).len()
                <= trail(tree, a).len() + 1;
        assert(trail(tree, b).len() <= walk.len());
    }
}

/// The complete search discovers exactly the nodes that open edges reach from
/// the start.
pub proof fn lemma_discovered_iff_reachable(net: Network, start: usize, goal: usize)
    requires
        closed_under_edges(net),
        start < net.len(),
    ensures
        breadth_first(net, start).order.contains(goal) <==> reachable(net, start, goal),
{
    let tree = breadth_first(net, start);
    lemma_breadth_first(net, start);
    if tree.order.contains(goal) {
        let k = tree.order.index_of(goal);
        lemma_trail(net, start, tree, k);
        assert(open_walk(net, start, goal, trail(tree, k)));
    }
    if reachable(net, start, goal) {
        let walk = choose|walk: Seq<usize>| open_walk(net, start, goal, walk);
        lemma_walk_found(net, start, goal, walk);
    }
}

/// The path that the search tree holds to a discovered node has no more nodes
/// than any open walk from the start to that node.
pub proof fn lemma_trail_shortest(net: Network, start: usize, k: int, walk: Seq<usize>)
    requires
        closed_under_edges(net),
        start < net.len(),
        0 <= k < breadth_first(net, start).order.len(),
        open_walk(net, start, breadth_first(net, start).order[k], walk),
    ensures
        trail(breadth_first(net, start), k).len() <= walk.len(),
{
    let tree = breadth_first(net, start);
    lemma_breadth_first(net, start);
    lemma_walk_found(net, start, tree.order[k], walk);
    let b = choose|b: int|
        0 <= b < tree.order.len() && #[trigger] tree.order[b] == tree.order[k] && trail(tree, b).len()
            <= walk.len();
    assert(b == k);
}

/// What a search from `start` has found, in terms of the graph alone.
///
/// A path that was found leads from the start along open edges to a node that
/// the goal predicate accepted, passes through no node twice, and is as short
/// as can be: the predicate rejected every node that a walk of fewer nodes
/// reaches. Where nothing was found, the predicate rejected every node that
/// can be reached. A predicate that cannot reject the start gets the start
/// alone for a path.
pub open spec fn search_meaning<Function: FnMut(&Node) -> bool>(
    graph: &Graph,
    start: usize,
    check_goal: Function,
    found: Option<Vec<usize>>,
) -> bool {
    &&& match found {
        Some(path) => {
            &&& open_walk(graph@, start, path@.last(), path@)
            &&& path@.no_duplicates()
            &&& answers(graph, check_goal, path@.last(), true)
            &&& forall|walk: Seq<usize>|
                #![trigger open_path(graph@, walk)]
                walk.len() < path@.len() && open_walk(graph@, start, walk.last(), walk) ==> answers(
                    graph,
                    check_goal,
                    walk.last(),
                    false,
                )
        },
        None => forall|goal: usize|
            #![trigger answers(graph, check_goal, goal, false)]
            reachable(graph@, start, goal) ==> answers(graph, check_goal, goal, false),
    }
    &&& !answers(graph, check_goal, start, false) ==> match found {
        Some(path) => path@ == seq![start],
        None => false,
    }
}

/// The result of a search means what [`search_meaning`] says.
pub proof fn lemma_search_meaning<Function: FnMut(&Node) -> bool>(
    graph: &Graph,
    start: usize,
    check_goal: Function,
    found: Option<Vec<usize>>,
)
    requires
        graph.wf(),
        start < graph@.len(),
        search_result(graph, start, check_goal, found),
    ensures
        search_meaning(graph, start, check_goal, found),
{
    graph.lemma_wf();
    let net = graph@;
    let tree = breadth_first(net, start);
    lemma_breadth_first(net, start);
    assert(trail(tree, 0) == seq![start]);
    match found {
        Some(path) => {
            let k = choose|k: int|
                {
                    &&& 0 <= k < tree.order.len()
                    &&& #[trigger] answers(graph, check_goal, tree.order[k], true)
                    &&& forall|j: int|
                        0 <= j < k ==> answers(graph, check_goal, #[trigger] tree.order[j], false)
                    &&& path@ == trail(tree, k)
                };
            lemma_trail(net, start, tree, k);
            assert forall|walk: Seq<usize>|
                #![trigger open_path(graph@, walk)]
                walk.len() < path@.len() && open_walk(net, start, walk.last(), walk) implies answers(
                graph,
                check_goal,
                walk.last(),
                false,
            ) by {
                lemma_walk_found(net, start, walk.last(), walk);
                let b = choose|b: int|
                    0 <= b < tree.order.len() && #[trigger] tree.order[b] == walk.last() && trail(
                        tree,
                        b,
                    ).len() <= walk.len();
                if b >= k {
                    assert(trail(tree, k).len() <= trail(tree, b).len());
                }
            }
            if !answers(graph, check_goal, start, false) {
                if k > 0 {
                    assert(answers(graph, check_goal, tree.order[0], false));
                }
            }
        },
        None => {
            assert forall|goal: usize|
                #![trigger answers(graph, check_goal, goal, false)]
                reachable(net, start, goal) implies answers(graph, check_goal, goal, false) by {
                lemma_discovered_iff_reachable(net, start, goal);
                let j = tree.order.index_of(goal);
                assert(answers(graph, check_goal, tree.order[j], false));
            }
            assert(answers(graph, check_goal, tree.order[0], false));
        },
    }
}

} // verus!
