//! The mathematical model of a flow network: a sequence of named vertices, each
//! with its outgoing residual edges, and the quantities defined on it.

use vstd::prelude::*;
use crate::sums::{lemma_sum_by_zero, sum_by};

verus! {

/// One residual edge: the target's identifier, the current flow, the capacity.
pub type Edge = (usize, i32, i32);

/// What the model keeps of a node: its name and its outgoing edges in the
/// order in which they were added. A node's identifier is its position.
pub struct Vertex {
    pub name: Seq<char>,
    pub edges: Seq<Edge>,
}

/// A network is the sequence of its vertices, indexed by identifier.
pub type Network = Seq<Vertex>;

/// The bound that every edge of a well-formed network keeps: the flow is never
/// negative, and it exceeds the capacity only on an edge of negative capacity,
/// which never carries anything.
pub open spec fn edge_bounded(e: Edge) -> bool {
    0 <= e.1 && (e.1 <= e.2 || e.1 == 0)
}

/// The bound `0 <= flow <= capacity`.
pub open spec fn edge_feasible(e: Edge) -> bool {
    0 <= e.1 <= e.2
}

/// Names are unique, every edge leads to a vertex of the network, and every
/// edge is bounded.
pub open spec fn well_formed(net: Network) -> bool {
    &&& forall|i: int, j: int|
        0 <= i < j < net.len() ==> (#[trigger] net[i]).name != (#[trigger] net[j]).name
    &&& forall|u: int, k: int|
        0 <= u < net.len() && 0 <= k < net[u].edges.len() ==> {
            &&& (#[trigger] net[u].edges[k]).0 < net.len()
            &&& edge_bounded(net[u].edges[k])
        }
}

/// Every edge of the network satisfies `0 <= flow <= capacity`.
pub open spec fn feasible(net: Network) -> bool {
    forall|u: int, k: int|
        0 <= u < net.len() && 0 <= k < net[u].edges.len() ==> edge_feasible(
            #[trigger] net[u].edges[k],
        )
}

/// No edge carries any flow.
pub open spec fn idle(net: Network) -> bool {
    forall|u: int, k: int|
        0 <= u < net.len() && 0 <= k < net[u].edges.len() ==> (#[trigger] net[u].edges[k]).1 == 0
}

/// Two networks have the same vertices and the same edges up to the flow
/// values: same names, same targets, same capacities.
pub open spec fn same_shape(a: Network, b: Network) -> bool {
    &&& a.len() == b.len()
    &&& forall|u: int|
        0 <= u < a.len() ==> (#[trigger] a[u]).name == b[u].name && a[u].edges.len()
            == b[u].edges.len()
    &&& forall|u: int, k: int|
        0 <= u < a.len() && 0 <= k < a[u].edges.len() ==> (#[trigger] a[u].edges[k]).0
            == b[u].edges[k].0 && a[u].edges[k].2 == b[u].edges[k].2
}

/// Vertex `i` of the network bears the name `name`.
pub open spec fn named(net: Network, name: Seq<char>, i: int) -> bool {
    0 <= i < net.len() && net[i].name == name
}

/// The identifier of the vertex called `name`, if there is one.
pub open spec fn position_of(net: Network, name: Seq<char>) -> Option<int> {
    if exists|i: int| named(net, name, i) {
        Some(choose|i: int| named(net, name, i))
    } else {
        None
    }
}

/// The identifier under which `name` is known once it has been registered: its
/// present one, or the next free one.
pub open spec fn id_after_ensure(net: Network, name: Seq<char>) -> int {
    match position_of(net, name) {
        Some(i) => i,
        None => net.len() as int,
    }
}

/// The network once `name` has been registered: unchanged if a vertex bears the
/// name, otherwise extended by a vertex of that name without edges.
pub open spec fn with_node(net: Network, name: Seq<char>) -> Network {
    match position_of(net, name) {
        Some(_) => net,
        None => net.push(Vertex { name, edges: Seq::empty() }),
    }
}

/// The network with `e` appended to the edges of vertex `u`.
pub open spec fn with_edge_at(net: Network, u: int, e: Edge) -> Network {
    net.update(u, Vertex { name: net[u].name, edges: net[u].edges.push(e) })
}

/// The network after an edge of capacity `weight` from `source` to `dest` has
/// been added: the destination is registered first, then the source, then the
/// edge is appended to the source's list with no flow on it.
pub open spec fn with_edge(net: Network, source: Seq<char>, dest: Seq<char>, weight: i32) -> Network {
    let first = with_node(net, dest);
    let d = id_after_ensure(net, dest);
    let second = with_node(first, source);
    let s = id_after_ensure(first, source);
    with_edge_at(second, s, (d as usize, 0i32, weight))
}

/// An edge to be added: the source's name, the destination's name, the capacity.
pub type Link = (Seq<char>, Seq<char>, i32);

/// The network that adding the edges of `links` one after the other, from the
/// first to the last, makes of a network without nodes.
pub open spec fn built(links: Seq<Link>) -> Network
    decreases links.len(),
{
    if links.len() == 0 {
        Seq::<Vertex>::empty()
    } else {
        with_edge(built(links.drop_last()), links.last().0, links.last().1, links.last().2)
    }
}

/// The network in which the flow of edge `k` of vertex `u` has grown by `amount`.
pub open spec fn with_flow_added(net: Network, u: int, k: int, amount: int) -> Network {
    let e = net[u].edges[k];
    net.update(
        u,
        Vertex { name: net[u].name, edges: net[u].edges.update(k, (e.0, (e.1 + amount) as i32, e.2)) },
    )
}

/// The measure that reads an edge's flow.
pub open spec fn flow_of() -> spec_fn(Edge) -> int {
    |e: Edge| e.1 as int
}

/// The measure that reads an edge's capacity.
pub open spec fn capacity_of() -> spec_fn(Edge) -> int {
    |e: Edge| e.2 as int
}

/// The measure that reads an edge's flow if the edge leads to `v`, and nothing
/// otherwise.
pub open spec fn flow_toward(v: int) -> spec_fn(Edge) -> int {
    |e: Edge| if e.0 == v { e.1 as int } else { 0 }
}

/// The measure that reads an edge's capacity if the edge leads to `v`, and
/// nothing otherwise.
pub open spec fn capacity_toward(v: int) -> spec_fn(Edge) -> int {
    |e: Edge| if e.0 == v { e.2 as int } else { 0 }
}

/// The measure that reads the flow a vertex sends to `v` over all its edges.
pub open spec fn flow_sent_to(v: int) -> spec_fn(Vertex) -> int {
    |n: Vertex| sum_by(n.edges, flow_toward(v))
}

/// The measure that reads the capacity a vertex offers to `v` over all its edges.
pub open spec fn capacity_offered_to(v: int) -> spec_fn(Vertex) -> int {
    |n: Vertex| sum_by(n.edges, capacity_toward(v))
}

/// Total flow on the outgoing edges of vertex `u`.
pub open spec fn out_flow(net: Network, u: int) -> int {
    sum_by(net[u].edges, flow_of())
}

/// Total capacity of the outgoing edges of vertex `u`.
pub open spec fn out_capacity(net: Network, u: int) -> int {
    sum_by(net[u].edges, capacity_of())
}

/// Total flow on all edges of the network that lead to `v`.
pub open spec fn in_flow(net: Network, v: int) -> int {
    sum_by(net, flow_sent_to(v))
}

/// Total capacity of all edges of the network that lead to `v`.
pub open spec fn in_capacity(net: Network, v: int) -> int {
    sum_by(net, capacity_offered_to(v))
}

/// The position of the first edge at or after `from` that leads to `v`, or the
/// length of the list if there is none.
pub open spec fn first_edge_from(edges: Seq<Edge>, v: int, from: int) -> int
    decreases edges.len() - from,
{
    if from < 0 || from >= edges.len() {
        edges.len() as int
    } else if edges[from].0 == v {
        from
    } else {
        first_edge_from(edges, v, from + 1)
    }
}

/// The position of the first edge that leads to `v`, or the length of the list
/// if there is none.
pub open spec fn first_edge_to(edges: Seq<Edge>, v: int) -> int {
    first_edge_from(edges, v, 0)
}

/// Vertex `u` has an edge that leads to `v`.
pub open spec fn has_edge(net: Network, u: int, v: int) -> bool {
    0 <= u < net.len() && first_edge_to(net[u].edges, v) < net[u].edges.len()
}

/// The first edge from `u` to `v`: the one that stands for the pair.
pub open spec fn first_edge(net: Network, u: int, v: int) -> Edge {
    net[u].edges[first_edge_to(net[u].edges, v)]
}

/// What the first edge from `u` to `v` can still take: capacity less flow.
pub open spec fn residual(net: Network, u: int, v: int) -> int {
    first_edge(net, u, v).2 - first_edge(net, u, v).1
}

/// What `first_edge_from` returns is a position at or after `from`; if it lies
/// inside the list, the edge there leads to `v`, and no edge between `from` and
/// it does.
pub proof fn lemma_first_edge_from(edges: Seq<Edge>, v: int, from: int)
    requires
        0 <= from <= edges.len(),
    ensures
        from <= first_edge_from(edges, v, from) <= edges.len(),
        first_edge_from(edges, v, from) < edges.len() ==> edges[first_edge_from(edges, v, from)].0
            == v,
        forall|j: int| from <= j < first_edge_from(edges, v, from) ==> (#[trigger] edges[j]).0 != v,
    decreases edges.len() - from,
{
    if from < edges.len() && edges[from].0 != v {
        lemma_first_edge_from(edges, v, from + 1);
    }
}

/// The first edge to `v` is found exactly when some edge leads to `v`.
pub proof fn lemma_first_edge_to(edges: Seq<Edge>, v: int)
    ensures
        0 <= first_edge_to(edges, v) <= edges.len(),
        first_edge_to(edges, v) < edges.len() ==> edges[first_edge_to(edges, v)].0 == v,
        forall|j: int| 0 <= j < first_edge_to(edges, v) ==> (#[trigger] edges[j]).0 != v,
        (exists|j: int| 0 <= j < edges.len() && (#[trigger] edges[j]).0 == v) <==> first_edge_to(
            edges,
            v,
        ) < edges.len(),
{
    lemma_first_edge_from(edges, v, 0);
}

/// Registering a name keeps the network well formed and every vertex it had;
/// the name then stands at the identifier that was announced for it.
pub proof fn lemma_with_node(net: Network, name: Seq<char>)
    requires
        well_formed(net),
    ensures
        well_formed(with_node(net, name)),
        0 <= id_after_ensure(net, name) < with_node(net, name).len(),
        with_node(net, name)[id_after_ensure(net, name)].name == name,
        net.len() <= with_node(net, name).len() <= net.len() + 1,
        forall|i: int| 0 <= i < net.len() ==> (#[trigger] with_node(net, name)[i]) == net[i],
        forall|i: int|
            net.len() <= i < with_node(net, name).len() ==> (#[trigger] with_node(net, name)[i]).edges.len()
                == 0,
        feasible(net) ==> feasible(with_node(net, name)),
        idle(net) ==> idle(with_node(net, name)),
{
    let after = with_node(net, name);
    if position_of(net, name) is None {
        assert forall|a: int, b: int| 0 <= a < b < after.len() implies (#[trigger] after[a]).name != (
        #[trigger] after[b]).name by {
            if b == net.len() {
                assert(!named(net, name, a));
            }
        }
    }
}

/// Adding an edge keeps the network well formed. The network stays feasible
/// exactly if it was and the new capacity is not negative, and stays idle if
/// it was.
pub proof fn lemma_with_edge(net: Network, source: Seq<char>, dest: Seq<char>, weight: i32)
    requires
        well_formed(net),
    ensures
        well_formed(with_edge(net, source, dest, weight)),
        feasible(with_edge(net, source, dest, weight)) <==> feasible(net) && weight >= 0,
        idle(net) ==> idle(with_edge(net, source, dest, weight)),
{
    let first = with_node(net, dest);
    let d = id_after_ensure(net, dest);
    let second = with_node(first, source);
    let s = id_after_ensure(first, source);
    let e = (d as usize, 0i32, weight);
    let after = with_edge(net, source, dest, weight);
    lemma_with_node(net, dest);
    lemma_with_node(first, source);
    assert(after == with_edge_at(second, s, e));
    assert forall|u: int, k: int| 0 <= u < after.len() && 0 <= k < after[u].edges.len() implies (
    #[trigger] after[u].edges[k]) == if u == s && k == second[s].edges.len() {
        e
    } else {
        second[u].edges[k]
    } by {}
    assert forall|a: int, b: int| 0 <= a < b < after.len() implies (#[trigger] after[a]).name != (
    #[trigger] after[b]).name by {
        assert(after[a].name == second[a].name && after[b].name == second[b].name);
    }
    assert(after[s].edges[second[s].edges.len() as int] == e);
    if feasible(after) {
        assert(edge_feasible(after[s].edges[second[s].edges.len() as int]));
        assert forall|u: int, k: int|
            0 <= u < net.len() && 0 <= k < net[u].edges.len() implies edge_feasible(
            #[trigger] net[u].edges[k],
        ) by {
            assert(second[u] == net[u]);
            assert(after[u].edges[k] == second[u].edges[k]);
        }
    }
}

/// A change of the flow on one edge that keeps the flow between zero and the
/// capacity keeps the network well formed and of the same shape, keeps it
/// feasible if it was, and touches no other vertex.
pub proof fn lemma_with_flow_added(net: Network, u: int, k: int, amount: int)
    requires
        well_formed(net),
        0 <= u < net.len(),
        0 <= k < net[u].edges.len(),
        0 <= net[u].edges[k].1 + amount <= net[u].edges[k].2,
    ensures
        well_formed(with_flow_added(net, u, k, amount)),
        same_shape(net, with_flow_added(net, u, k, amount)),
        feasible(net) ==> feasible(with_flow_added(net, u, k, amount)),
        forall|w: int|
            0 <= w < net.len() && w != u ==> (#[trigger] with_flow_added(net, u, k, amount)[w])
                == net[w],
{
    let after = with_flow_added(net, u, k, amount);
    let e = net[u].edges[k];
    assert(after[u].edges[k] == (e.0, (e.1 + amount) as i32, e.2));
    assert forall|a: int, b: int| 0 <= a < after.len() && 0 <= b < after[a].edges.len() implies (
    #[trigger] after[a].edges[b]) == if a == u && b == k {
        (e.0, (e.1 + amount) as i32, e.2)
    } else {
        net[a].edges[b]
    } by {}
    assert forall|a: int, b: int| 0 <= a < b < after.len() implies (#[trigger] after[a]).name != (
    #[trigger] after[b]).name by {
        assert(after[a].name == net[a].name && after[b].name == net[b].name);
    }
    assert forall|a: int, b: int|
        0 <= a < net.len() && 0 <= b < net[a].edges.len() implies (#[trigger] net[a].edges[b]).0
        == after[a].edges[b].0 && net[a].edges[b].2 == after[a].edges[b].2 by {
        assert(after[a].edges[b] == if a == u && b == k {
            (e.0, (e.1 + amount) as i32, e.2)
        } else {
            net[a].edges[b]
        });
    }
    if feasible(net) {
        assert forall|a: int, b: int|
            0 <= a < after.len() && 0 <= b < after[a].edges.len() implies edge_feasible(
            #[trigger] after[a].edges[b],
        ) by {
            if !(a == u && b == k) {
                assert(edge_feasible(net[a].edges[b]));
            }
        }
    }
}

/// In an idle network no flow leaves or reaches any vertex.
pub proof fn lemma_idle_totals(net: Network, w: int)
    requires
        idle(net),
    ensures
        in_flow(net, w) == 0,
        0 <= w < net.len() ==> out_flow(net, w) == 0,
{
    assert forall|u: int| 0 <= u < net.len() implies flow_sent_to(w)(#[trigger] net[u]) == 0 by {
        assert forall|k: int| 0 <= k < net[u].edges.len() implies flow_toward(w)(
            #[trigger] net[u].edges[k],
        ) == 0 by {}
        lemma_sum_by_zero(net[u].edges, flow_toward(w));
    }
    lemma_sum_by_zero(net, flow_sent_to(w));
    if 0 <= w < net.len() {
        assert forall|k: int| 0 <= k < net[w].edges.len() implies flow_of()(
            #[trigger] net[w].edges[k],
        ) == 0 by {}
        lemma_sum_by_zero(net[w].edges, flow_of());
    }
}

} // verus!
