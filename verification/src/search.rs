//! Breadth-first search of the residual graph: the order in which it discovers
//! nodes, the tree it builds, and the executable search.

use vstd::prelude::*;
use crate::graph::{Graph, Node};
use crate::network::{Edge, Network};
use crate::reach::{lemma_search_meaning, search_meaning};

verus! {

/// An edge that search may follow: its flow is strictly below its capacity.
pub open spec fn open_edge(e: Edge) -> bool {
    e.1 < e.2
}

/// Some edge from `u` to `v` can still take flow.
pub open spec fn linked(net: Network, u: int, v: int) -> bool {
    0 <= u < net.len() && exists|k: int|
        0 <= k < net[u].edges.len() && (#[trigger] net[u].edges[k]).0 == v && open_edge(
            net[u].edges[k],
        )
}

/// The state of a breadth-first search.
///
/// `order` lists the discovered nodes, first discovered first; the nodes
/// before position `head` have been expanded, the others form the frontier in
/// the order in which they will be expanded. `via[i]` is the position in
/// `order` of the node from which `order[i]` was discovered.
pub struct Exploration {
    pub order: Seq<usize>,
    pub via: Seq<int>,
    pub head: nat,
}

/// The search before its first step: only the start is discovered.
pub open spec fn outset(start: usize) -> Exploration {
    Exploration { order: seq![start], via: seq![-1int], head: 0 }
}

/// The state after the node under expansion has looked at edge `e`: the target
/// joins the frontier if the edge is open and the target is new.
pub open spec fn visit(x: Exploration, e: Edge) -> Exploration {
    if open_edge(e) && !x.order.contains(e.0) {
        Exploration { order: x.order.push(e.0), via: x.via.push(x.head as int), head: x.head }
    } else {
        x
    }
}

/// The state after the node under expansion has looked at the first `upto` of
/// `edges`, in their order.
pub open spec fn scan(x: Exploration, edges: Seq<Edge>, upto: int) -> Exploration
    decreases upto,
{
    if upto <= 0 {
        x
    } else {
        visit(scan(x, edges, upto - 1), edges[upto - 1])
    }
}

/// The state after the node at the head of the frontier has been expanded.
pub open spec fn expand(net: Network, x: Exploration) -> Exploration {
    let edges = net[x.order[x.head as int] as int].edges;
    let y = scan(x, edges, edges.len() as int);
    Exploration { order: y.order, via: y.via, head: x.head + 1 }
}

/// The state in which the search ends when nothing stops it: every discovered
/// node has been expanded.
pub open spec fn explore(net: Network, x: Exploration) -> Exploration
    decreases net.len() - x.head,
{
    if x.head < x.order.len() && x.head < net.len() {
        explore(net, expand(net, x))
    } else {
        x
    }
}

/// The complete breadth-first search of `net` from `start`.
pub open spec fn breadth_first(net: Network, start: usize) -> Exploration {
    explore(net, outset(start))
}

/// The path that the search tree holds from the start to the node at position
/// `i` of the order: both ends included, the start first.
pub open spec fn trail(x: Exploration, i: int) -> Seq<usize>
    decreases i,
{
    if 0 < i < x.order.len() && 0 <= x.via[i] < i {
        trail(x, x.via[i]).push(x.order[i])
    } else {
        seq![x.order[i]]
    }
}

/// Consecutive nodes of `path` are joined by an open edge, and every node of
/// it belongs to the network.
pub open spec fn open_path(net: Network, path: Seq<usize>) -> bool {
    &&& forall|i: int| 0 <= i < path.len() ==> (#[trigger] path[i]) < net.len()
    &&& forall|i: int|
        0 <= i < path.len() - 1 ==> linked(net, (#[trigger] path[i]) as int, path[i + 1] as int)
}

/// What holds of every state that a search from `start` passes through.
pub open spec fn coherent(net: Network, start: usize, x: Exploration) -> bool {
    &&& x.order.len() == x.via.len()
    &&& 0 < x.order.len()
    &&& x.head <= x.order.len()
    &&& x.order[0] == start
    &&& x.order.no_duplicates()
    &&& forall|i: int| 0 <= i < x.order.len() ==> (#[trigger] x.order[i]) < net.len()
    &&& forall|i: int|
        0 < i < x.order.len() ==> 0 <= (#[trigger] x.via[i]) < i && x.via[i] <= x.head && linked(
            net,
            x.order[x.via[i]] as int,
            x.order[i] as int,
        )
}

/// One state continues another: it has discovered the same nodes in the same
/// order, from the same nodes, and perhaps more after them.
pub open spec fn continues(y: Exploration, x: Exploration) -> bool {
    &&& x.order.len() <= y.order.len()
    &&& x.via.len() <= y.via.len()
    &&& forall|i: int| 0 <= i < x.order.len() ==> (#[trigger] y.order[i]) == x.order[i]
    &&& forall|i: int| 0 <= i < x.via.len() ==> (#[trigger] y.via[i]) == x.via[i]
}

/// Distinct values below `n` are at most `n` in number.
pub proof fn lemma_distinct_bounded(s: Seq<usize>, n: nat)
    requires
        s.no_duplicates(),
        forall|i: int| 0 <= i < s.len() ==> (#[trigger] s[i]) < n,
    ensures
        s.len() <= n,
    decreases n,
{
    if s.len() > 0 {
        assert(s[0] < n);
        let top = (n - 1) as usize;
        if s.contains(top) {
            let at = choose|i: int| 0 <= i < s.len() && s[i] == top;
            let rest = s.remove(at);
            assert forall|i: int| 0 <= i < rest.len() implies (#[trigger] rest[i]) < n - 1 by {
                if i < at {
                    assert(rest[i] == s[i]);
                } else {
                    assert(rest[i] == s[i + 1]);
                }
            }
            assert(rest.no_duplicates()) by {
                assert forall|i: int, j: int|
                    0 <= i < rest.len() && 0 <= j < rest.len() && i != j implies rest[i]
                    != rest[j] by {
                    let a = if i < at { i } else { i + 1 };
                    let b = if j < at { j } else { j + 1 };
                    assert(rest[i] == s[a] && rest[j] == s[b]);
                }
            }
            lemma_distinct_bounded(rest, (n - 1) as nat);
        } else {
            assert forall|i: int| 0 <= i < s.len() implies (#[trigger] s[i]) < n - 1 by {
                if s[i] == top {
                    assert(s.contains(top));
                }
            }
            lemma_distinct_bounded(s, (n - 1) as nat);
        }
    }
}

/// A coherent search has discovered no more nodes than the network holds.
pub proof fn lemma_coherent_bounded(net: Network, start: usize, x: Exploration)
    requires
        coherent(net, start, x),
    ensures
        x.order.len() <= net.len(),
{
    lemma_distinct_bounded(x.order, net.len());
}

/// Looking at one edge keeps the search coherent and continues it.
pub proof fn lemma_visit(net: Network, start: usize, x: Exploration, e: Edge)
    requires
        coherent(net, start, x),
        x.head < x.order.len(),
        e.0 < net.len(),
        open_edge(e) ==> linked(net, x.order[x.head as int] as int, e.0 as int),
    ensures
        coherent(net, start, visit(x, e)),
        continues(visit(x, e), x),
        visit(x, e).head == x.head,
{
    let y = visit(x, e);
    if open_edge(e) && !x.order.contains(e.0) {
        assert forall|i: int, j: int|
            0 <= i < y.order.len() && 0 <= j < y.order.len() && i != j implies y.order[i]
            != y.order[j] by {
            if i == x.order.len() {
                assert(x.order[j] == y.order[j]);
            } else if j == x.order.len() {
                assert(x.order[i] == y.order[i]);
            }
        }
        assert forall|i: int| 0 < i < y.order.len() implies 0 <= (#[trigger] y.via[i]) < i
            && y.via[i] <= y.head && linked(net, y.order[y.via[i]] as int, y.order[i] as int) by {
            if i < x.order.len() {
                assert(y.via[i] == x.via[i]);
            }
        }
    }
}

/// Looking at a run of edges keeps the search coherent and continues it.
pub proof fn lemma_scan(net: Network, start: usize, x: Exploration, upto: int)
    requires
        coherent(net, start, x),
        x.head < x.order.len(),
        0 <= upto <= net[x.order[x.head as int] as int].edges.len(),
        forall|k: int|
            0 <= k < net[x.order[x.head as int] as int].edges.len() ==> (
            #[trigger] net[x.order[x.head as int] as int].edges[k]).0 < net.len(),
    ensures
        coherent(net, start, scan(x, net[x.order[x.head as int] as int].edges, upto)),
        continues(scan(x, net[x.order[x.head as int] as int].edges, upto), x),
        scan(x, net[x.order[x.head as int] as int].edges, upto).head == x.head,
    decreases upto,
{
    if upto > 0 {
        let u = x.order[x.head as int] as int;
        let edges = net[u].edges;
        lemma_scan(net, start, x, upto - 1);
        let mid = scan(x, edges, upto - 1);
        assert(mid.order[mid.head as int] == x.order[x.head as int]);
        assert(edges[upto - 1].0 < net.len());
        lemma_visit(net, start, mid, edges[upto - 1]);
    }
}

/// Every edge of the network leads to one of its nodes.
pub open spec fn closed_under_edges(net: Network) -> bool {
    forall|u: int, k: int|
        0 <= u < net.len() && 0 <= k < net[u].edges.len() ==> (#[trigger] net[u].edges[k]).0
            < net.len()
}

/// Expanding the head of the frontier keeps the search coherent and continues it.
pub proof fn lemma_expand(net: Network, start: usize, x: Exploration)
    requires
        closed_under_edges(net),
        coherent(net, start, x),
        x.head < x.order.len(),
    ensures
        coherent(net, start, expand(net, x)),
        continues(expand(net, x), x),
{
    let u = x.order[x.head as int] as int;
    lemma_scan(net, start, x, net[u].edges.len() as int);
}

/// The search, run to its end, stays coherent, continues every state it
/// passed through, and leaves no node of the frontier unexpanded.
pub proof fn lemma_explore(net: Network, start: usize, x: Exploration)
    requires
        closed_under_edges(net),
        coherent(net, start, x),
    ensures
        coherent(net, start, explore(net, x)),
        continues(explore(net, x), x),
        explore(net, x).head == explore(net, x).order.len(),
    decreases net.len() - x.head,
{
    lemma_coherent_bounded(net, start, x);
    if x.head < x.order.len() {
        lemma_expand(net, start, x);
        lemma_explore(net, start, expand(net, x));
    }
}

/// The path to a discovered node is the same in every state that continues
/// the one in which it was discovered.
pub proof fn lemma_trail_continues(x: Exploration, y: Exploration, i: int)
    requires
        continues(y, x),
        x.order.len() == x.via.len(),
        0 <= i < x.order.len(),
    ensures
        trail(y, i) == trail(x, i),
    decreases i,
{
    if 0 < i && 0 <= x.via[i] < i {
        lemma_trail_continues(x, y, x.via[i]);
    }
}

/// The path to a discovered node starts at the start, ends at the node, follows
/// open edges, and passes through no node twice.
pub proof fn lemma_trail(net: Network, start: usize, x: Exploration, i: int)
    requires
        coherent(net, start, x),
        0 <= i < x.order.len(),
    ensures
        trail(x, i).len() >= 1,
        trail(x, i).len() <= i + 1,
        trail(x, i)[0] == start,
        trail(x, i).last() == x.order[i],
        open_path(net, trail(x, i)),
        trail(x, i).no_duplicates(),
        forall|j: int|
            0 <= j < trail(x, i).len() ==> exists|p: int|
                0 <= p <= i && x.order[p] == #[trigger] trail(x, i)[j],
    decreases i,
{
    let t = trail(x, i);
    if 0 < i {
        let p = x.via[i];
        lemma_trail(net, start, x, p);
        let before = trail(x, p);
        assert(t == before.push(x.order[i]));
        assert forall|j: int| 0 <= j < t.len() - 1 implies linked(
            net,
            (#[trigger] t[j]) as int,
            t[j + 1] as int,
        ) by {
            if j < before.len() - 1 {
                assert(t[j] == before[j]);
                assert(linked(net, before[j] as int, before[j + 1] as int));
            }
        }
        assert forall|j: int| 0 <= j < t.len() implies exists|q: int|
            0 <= q <= i && x.order[q] == #[trigger] t[j] by {
            if j < before.len() {
                let q = choose|q: int| 0 <= q <= p && x.order[q] == before[j];
                assert(0 <= q <= i && x.order[q] == t[j]);
            } else {
                assert(x.order[i] == t[j]);
            }
        }
        assert forall|a: int, b: int| 0 <= a < t.len() && 0 <= b < t.len() && a != b implies t[a]
            != t[b] by {
            if a < before.len() && b < before.len() {
            } else if a < before.len() {
                let q = choose|q: int| 0 <= q <= p && x.order[q] == before[a];
                assert(x.order[q] != x.order[i]);
            } else {
                let q = choose|q: int| 0 <= q <= p && x.order[q] == before[b];
                assert(x.order[q] != x.order[i]);
            }
        }
    } else {
        assert(t == seq![x.order[0]]);
    }
}

/// The goal predicate, asked about node `v`, may answer `verdict`.
pub open spec fn answers<Function: FnMut(&Node) -> bool>(
    graph: &Graph,
    check_goal: Function,
    v: usize,
    verdict: bool,
) -> bool {
    check_goal.ensures((&graph.node(v as int),), verdict)
}

/// What a search from `start` returns, given the answers of the goal
/// predicate: the tree path to the first node, in the order of discovery, that
/// the predicate accepted, every node before it having been rejected; or
/// nothing, every discovered node having been rejected.
pub open spec fn search_result<Function: FnMut(&Node) -> bool>(
    graph: &Graph,
    start: usize,
    check_goal: Function,
    found: Option<Vec<usize>>,
) -> bool {
    let tree = breadth_first(graph@, start);
    match found {
        Some(path) => exists|k: int|
            {
                &&& 0 <= k < tree.order.len()
                &&& #[trigger] answers(graph, check_goal, tree.order[k], true)
                &&& forall|j: int|
                    0 <= j < k ==> answers(graph, check_goal, #[trigger] tree.order[j], false)
                &&& path@ == trail(tree, k)
            },
        None => forall|j: int|
            0 <= j < tree.order.len() ==> answers(graph, check_goal, #[trigger] tree.order[j], false),
    }
}

/// How the table of discoverers stands for a search state: a node is
/// discovered exactly if it is the start or has an entry, and the entry of a
/// discovered node names the node it was discovered from.
spec fn records(table: Seq<Option<usize>>, start: usize, x: Exploration) -> bool {
    &&& start < table.len()
    &&& table[start as int] is None
    &&& forall|v: usize|
        v < table.len() ==> (x.order.contains(v) <==> v == start || (#[trigger] table[v as int])
            is Some)
    &&& forall|i: int|
        0 < i < x.order.len() ==> table[(#[trigger] x.order[i]) as int] == Some(x.order[x.via[i]])
}

/// A copy of `items` in the opposite order.
fn reversed(items: &Vec<usize>) -> (turned: Vec<usize>)
    ensures
        turned@ == items@.reverse(),
{
    let mut turned: Vec<usize> = Vec::new();
    let mut left: usize = items.len();
    while left > 0
        invariant
            left <= items@.len(),
            turned@.len() == items@.len() - left,
            forall|j: int| 0 <= j < turned@.len() ==> turned@[j] == items@[items@.len() - 1 - j],
        decreases left,
    {
        left = left - 1;
        turned.push(items[left]);
    }
    assert(turned@ =~= items@.reverse());
    turned
}

impl Graph {
    /// Searches breadth-first from `starting_node_id`, along edges whose flow is
    /// below their capacity, for a node that `check_goal` accepts.
    ///
    /// Nodes are asked in the order of their discovery, each discovered node
    /// once. The result is the path from the start to the first accepted node,
    /// both included, as the search tree holds it, or `None` if every node that
    /// can be reached was rejected.
    pub fn breadth_first_search<Function>(
        &self,
        starting_node_id: usize,
        check_goal: Function,
    ) -> (found: Option<Vec<usize>>) where Function: FnMut(&Node) -> bool
        requires
            starting_node_id < self@.len(),
            forall|i: int| 0 <= i < self@.len() ==> check_goal.requires((&#[trigger] self.node(i),)),
        ensures
            search_result(self, starting_node_id, check_goal, found),
            search_meaning(self, starting_node_id, check_goal, found),
    {
        broadcast use vstd::function::group_function_axioms;

        proof {
            use_type_invariant(self);
            self.lemma_wf();
        }
        let ghost net = self@;
        let ghost tree = breadth_first(net, starting_node_id);
        let mut check = check_goal;
        let count = self.node_count();
        let mut discovered_from: Vec<Option<usize>> = Vec::new();
        while discovered_from.len() < count
            invariant
                discovered_from@.len() <= count,
                forall|v: int| 0 <= v < discovered_from@.len() ==> discovered_from@[v] is None,
            decreases count - discovered_from@.len(),
        {
            discovered_from.push(None);
        }
        let mut queue: Vec<usize> = Vec::new();
        queue.push(starting_node_id);
        let mut head: usize = 0;
        let ghost mut x = outset(starting_node_id);
        proof {
            assert(x.order.contains(starting_node_id)) by {
                assert(x.order[0] == starting_node_id);
            }
        }
        while head < queue.len()
            invariant
                self.wf(),
                net == self@,
                closed_under_edges(net),
                count == net.len(),
                starting_node_id < count,
                check == check_goal,
                forall|i: int| 0 <= i < net.len() ==> check_goal.requires((&#[trigger] self.node(i),)),
                tree == breadth_first(net, starting_node_id),
                coherent(net, starting_node_id, x),
                explore(net, x) == tree,
                x.order == queue@,
                x.head == head,
                discovered_from@.len() == count,
                records(discovered_from@, starting_node_id, x),
                forall|j: int|
                    0 <= j < head ==> answers(self, check_goal, #[trigger] x.order[j], false),
            decreases count - head,
        {
            proof {
                lemma_coherent_bounded(net, starting_node_id, x);
                lemma_explore(net, starting_node_id, x);
                self.lemma_wf();
            }
            let current = queue[head];
            let node = self.node_at(current);
            if check(node) {
                let mut backwards: Vec<usize> = Vec::new();
                let mut at: usize = current;
                let ghost mut i: int = head as int;
                proof {
                    assert(trail(x, i) + backwards@.reverse() =~= trail(x, head as int));
                }
                loop
                    invariant
                        coherent(net, starting_node_id, x),
                        records(discovered_from@, starting_node_id, x),
                        discovered_from@.len() == count,
                        count == net.len(),
                        0 <= i <= head < x.order.len(),
                        x.order[i] == at,
                        trail(x, head as int) == trail(x, i) + backwards@.reverse(),
                    ensures
                        i == 0,
                        at == starting_node_id,
                    decreases i,
                {
                    match discovered_from[at] {
                        Some(discoverer) => {
                            proof {
                                assert(x.order.contains(at));
                                assert(i != 0);
                                let p = x.via[i];
                                assert(discoverer == x.order[p]);
                                assert(trail(x, i) == trail(x, p).push(at));
                                assert(trail(x, p) + backwards@.push(at).reverse() =~= trail(x, i)
                                    + backwards@.reverse());
                                i = p;
                            }
                            backwards.push(at);
                            at = discoverer;
                        },
                        None => {
                            proof {
                                if i != 0 {
                                    assert(discovered_from@[x.order[i] as int] == Some(
                                        x.order[x.via[i]],
                                    ));
                                }
                            }
                            break ;
                        },
                    }
                }
                proof {
                    assert(trail(x, 0) == seq![starting_node_id]);
                    assert(backwards@.push(at).reverse() =~= trail(x, 0) + backwards@.reverse());
                    lemma_trail_continues(x, tree, head as int);
                    assert(tree.order[head as int] == x.order[head as int]);
                    assert(answers(self, check_goal, tree.order[head as int], true));
                    assert forall|j: int| 0 <= j < head implies answers(
                        self,
                        check_goal,
                        #[trigger] tree.order[j],
                        false,
                    ) by {
                        assert(tree.order[j] == x.order[j]);
                    }
                }
                backwards.push(at);
                let path = reversed(&backwards);
                proof {
                    lemma_search_meaning(self, starting_node_id, check_goal, Some(path));
                }
                return Some(path);
            }
            let edges = &node.neighbors;
            let ghost mut seen = x;
            let mut k: usize = 0;
            while k < edges.len()
                invariant
                    closed_under_edges(net),
                    count == net.len(),
                    starting_node_id < count,
                    head < x.order.len(),
                    x.head == head,
                    current == x.order[head as int],
                    current < net.len(),
                    edges@ == net[current as int].edges,
                    coherent(net, starting_node_id, x),
                    k <= edges@.len(),
                    seen == scan(x, edges@, k as int),
                    coherent(net, starting_node_id, seen),
                    seen.head == head,
                    head < seen.order.len(),
                    seen.order[head as int] == current,
                    seen.order == queue@,
                    discovered_from@.len() == count,
                    records(discovered_from@, starting_node_id, seen),
                decreases edges@.len() - k,
            {
                let child = edges[k].0;
                let flow = edges[k].1;
                let capacity = edges[k].2;
                proof {
                    assert(child < net.len());
                    if open_edge(edges@[k as int]) {
                        assert(linked(net, current as int, child as int));
                    }
                    lemma_visit(net, starting_node_id, seen, edges@[k as int]);
                }
                let ghost next = visit(seen, edges@[k as int]);
                if flow < capacity && child != starting_node_id && discovered_from[child].is_none() {
                    queue.push(child);
                    discovered_from[child] = Some(current);
                    proof {
                        assert(!seen.order.contains(child));
                        assert forall|v: usize| v < discovered_from@.len() implies (
                        next.order.contains(v) <==> v == starting_node_id || (
                        #[trigger] discovered_from@[v as int]) is Some) by {
                            if v == child {
                                assert(next.order[seen.order.len() as int] == child);
                            } else {
                                if next.order.contains(v) {
                                    let q = choose|q: int|
                                        0 <= q < next.order.len() && next.order[q] == v;
                                    assert(seen.order[q] == v);
                                }
                                if seen.order.contains(v) {
                                    let q = choose|q: int|
                                        0 <= q < seen.order.len() && seen.order[q] == v;
                                    assert(next.order[q] == v);
                                }
                            }
                        }
                        assert forall|i: int| 0 < i < next.order.len() implies discovered_from@[(
                        #[trigger] next.order[i]) as int] == Some(next.order[next.via[i]]) by {
                            if i < seen.order.len() {
                                assert(next.order[i] == seen.order[i]);
                                assert(seen.order.contains(seen.order[i]));
                            }
                        }
                    }
                } else {
                    proof {
                        if open_edge(edges@[k as int]) {
                            assert(seen.order.contains(child)) by {
                                if child == starting_node_id {
                                    assert(seen.order[0] == child);
                                }
                            }
                        }
                        assert(next == seen);
                    }
                }
                proof {
                    seen = next;
                }
                k = k + 1;
            }
            proof {
                lemma_expand(net, starting_node_id, x);
                x = expand(net, x);
                assert(x.order == seen.order && x.via == seen.via);
            }
            head = head + 1;
        }
        proof {
            lemma_coherent_bounded(net, starting_node_id, x);
            assert(tree == x);
            lemma_search_meaning(self, starting_node_id, check_goal, None);
        }
        None
    }
}

} // verus!
