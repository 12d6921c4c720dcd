//! Sending flow over an edge and along a path: what it does to the network
//! and to every quantity defined on it.

use vstd::prelude::*;
use crate::network::{
    capacity_of, capacity_offered_to, capacity_toward, edge_bounded, feasible, first_edge,
    first_edge_to, flow_of, flow_sent_to, flow_toward, has_edge, in_capacity, in_flow,
    lemma_first_edge_to, lemma_with_flow_added, out_capacity, out_flow, residual, same_shape,
    well_formed, with_flow_added, Edge, Network, Vertex,
};
use crate::sums::{
    lemma_sum_by_monotone, lemma_sum_by_not_negative, lemma_sum_by_one_change,
    lemma_sum_by_pointwise, sum_by,
};

verus! {

/// The measure that reads what an edge can still take, which is nothing where
/// the flow has reached or passed the capacity.
pub open spec fn room_of() -> spec_fn(Edge) -> int {
    |e: Edge| if e.1 < e.2 { e.2 - e.1 } else { 0 }
}

/// The measure that reads the most an edge can ever carry: its capacity, or
/// nothing where that is negative.
pub open spec fn ceiling_of() -> spec_fn(Edge) -> int {
    |e: Edge| if e.2 > 0 { e.2 as int } else { 0 }
}

/// The most that can ever leave vertex `u`: the capacities of its edges
/// together, the negative ones left out.
pub open spec fn out_ceiling(net: Network, u: int) -> int {
    sum_by(net[u].edges, ceiling_of())
}

/// The measure that reads what the edges of a vertex can still take together.
pub open spec fn room_at() -> spec_fn(Vertex) -> int {
    |n: Vertex| sum_by(n.edges, room_of())
}

/// What all edges of the network can still take together.
pub open spec fn slack(net: Network) -> int {
    sum_by(net, room_at())
}

/// The first edge from `u` to `v` exists and its flow, grown by `amount`, stays
/// between zero and its capacity.
pub open spec fn can_add(net: Network, u: int, v: int, amount: int) -> bool {
    &&& has_edge(net, u, v)
    &&& 0 <= first_edge(net, u, v).1 + amount <= first_edge(net, u, v).2
}

/// The network in which the flow of the first edge from `u` to `v` has grown
/// by `amount`.
pub open spec fn added(net: Network, u: int, v: int, amount: int) -> Network {
    with_flow_added(net, u, first_edge_to(net[u].edges, v), amount)
}

/// Every two consecutive nodes of `path` are joined by an edge.
pub open spec fn joined(net: Network, path: Seq<usize>) -> bool {
    forall|i: int|
        0 <= i < path.len() - 1 ==> has_edge(net, (#[trigger] path[i]) as int, path[i + 1] as int)
}

/// The smaller of two integers.
pub open spec fn lesser(a: int, b: int) -> int {
    if a <= b {
        a
    } else {
        b
    }
}

/// The least residual capacity over the consecutive pairs of `path`, each pair
/// standing for the first edge between its nodes. Meant for paths of two nodes
/// or more.
pub open spec fn bottleneck(net: Network, path: Seq<usize>) -> int
    decreases path.len(),
{
    if path.len() < 2 {
        0
    } else if path.len() == 2 {
        residual(net, path[0] as int, path[1] as int)
    } else {
        lesser(
            bottleneck(net, path.drop_last()),
            residual(net, path[path.len() - 2] as int, path[path.len() - 1] as int),
        )
    }
}

/// The network after `amount` has been added, pair by pair from the front of
/// `path`, to the first edge between each two consecutive nodes.
pub open spec fn pushed(net: Network, path: Seq<usize>, amount: int) -> Network
    decreases path.len(),
{
    if path.len() < 2 {
        net
    } else {
        added(
            pushed(net, path.drop_last(), amount),
            path[path.len() - 2] as int,
            path[path.len() - 1] as int,
            amount,
        )
    }
}

/// Adding `amount` pair by pair along `path` keeps every flow it touches
/// between zero and the capacity, at the moment it is touched.
pub open spec fn pushable(net: Network, path: Seq<usize>, amount: int) -> bool
    decreases path.len(),
{
    path.len() < 2 || {
        &&& pushable(net, path.drop_last(), amount)
        &&& can_add(
            pushed(net, path.drop_last(), amount),
            path[path.len() - 2] as int,
            path[path.len() - 1] as int,
            amount,
        )
    }
}

/// What a change of the flow on one edge does to a sum over the network: the
/// sums over the other vertices stay, the sum over the changed vertex moves by
/// the change of the edge's measure.
proof fn lemma_added_sum(net: Network, u: int, k: int, amount: int, f: spec_fn(Edge) -> int)
    requires
        0 <= u < net.len(),
        0 <= k < net[u].edges.len(),
    ensures
        sum_by(net, |n: Vertex| sum_by(n.edges, f)) + f(with_flow_added(net, u, k, amount)[u].edges[k])
            - f(net[u].edges[k]) == sum_by(
            with_flow_added(net, u, k, amount),
            |n: Vertex| sum_by(n.edges, f),
        ),
        sum_by(net[u].edges, f) + f(with_flow_added(net, u, k, amount)[u].edges[k]) - f(
            net[u].edges[k],
        ) == sum_by(with_flow_added(net, u, k, amount)[u].edges, f),
{
    let after = with_flow_added(net, u, k, amount);
    let g = |n: Vertex| sum_by(n.edges, f);
    lemma_sum_by_one_change(net[u].edges, after[u].edges, k, f);
    lemma_sum_by_one_change(net, after, u, g);
}

/// What adding flow to the first edge of a pair does: the shape and the
/// well-formedness stay, and the flow out of `u`, the flow into `v` and the
/// slack move by the amount; every other vertex and every other total stays.
pub proof fn lemma_added(net: Network, u: int, v: int, amount: int)
    requires
        well_formed(net),
        can_add(net, u, v, amount),
    ensures
        well_formed(added(net, u, v, amount)),
        same_shape(net, added(net, u, v, amount)),
        feasible(net) ==> feasible(added(net, u, v, amount)),
        slack(added(net, u, v, amount)) == slack(net) - amount,
        0 <= v < net.len(),
        forall|w: int| 0 <= w < net.len() && w != u ==> added(net, u, v, amount)[w] == net[w],
        forall|w: int|
            0 <= w < net.len() ==> #[trigger] out_flow(added(net, u, v, amount), w) == out_flow(
                net,
                w,
            ) + if w == u {
                amount
            } else {
                0
            },
        forall|w: int|
            #[trigger] in_flow(added(net, u, v, amount), w) == in_flow(net, w) + if w == v {
                amount
            } else {
                0
            },
        forall|w: int|
            0 <= w < net.len() ==> #[trigger] out_capacity(added(net, u, v, amount), w)
                == out_capacity(net, w),
        forall|w: int| #[trigger] in_capacity(added(net, u, v, amount), w) == in_capacity(net, w),
{
    lemma_first_edge_to(net[u].edges, v);
    let k = first_edge_to(net[u].edges, v);
    let after = added(net, u, v, amount);
    let e = net[u].edges[k];
    assert(edge_bounded(e));
    lemma_with_flow_added(net, u, k, amount);
    lemma_added_sum(net, u, k, amount, room_of());
    assert forall|w: int| 0 <= w < net.len() implies #[trigger] out_flow(after, w) == out_flow(
        net,
        w,
    ) + if w == u {
        amount
    } else {
        0
    } by {
        if w == u {
            lemma_added_sum(net, u, k, amount, flow_of());
        }
    }
    assert forall|w: int| 0 <= w < net.len() implies #[trigger] out_capacity(after, w)
        == out_capacity(net, w) by {
        if w == u {
            lemma_added_sum(net, u, k, amount, capacity_of());
        }
    }
    assert forall|w: int| #[trigger] in_flow(after, w) == in_flow(net, w) + if w == v {
        amount
    } else {
        0
    } by {
        lemma_added_sum(net, u, k, amount, flow_toward(w));
        assert(flow_sent_to(w) == |n: Vertex| sum_by(n.edges, flow_toward(w)));
    }
    assert forall|w: int| #[trigger] in_capacity(after, w) == in_capacity(net, w) by {
        lemma_added_sum(net, u, k, amount, capacity_toward(w));
        assert(capacity_offered_to(w) == |n: Vertex| sum_by(n.edges, capacity_toward(w)));
    }
}

/// The number of consecutive pairs of `path`.
pub open spec fn hops(path: Seq<usize>) -> int {
    if path.len() < 2 {
        0
    } else {
        path.len() - 1
    }
}

/// `path` leaves node `w`: `w` stands in it before its end.
pub open spec fn leaves(path: Seq<usize>, w: int) -> bool {
    exists|i: int| 0 <= i < path.len() - 1 && #[trigger] path[i] == w
}

/// `path` enters node `w`: `w` stands in it after its start.
pub open spec fn enters(path: Seq<usize>, w: int) -> bool {
    exists|i: int| 1 <= i < path.len() && #[trigger] path[i] == w
}

/// The flow that leaves a vertex is not negative and no more than the most
/// that can ever leave it.
pub proof fn lemma_out_flow_bounded(net: Network, u: int)
    requires
        well_formed(net),
        0 <= u < net.len(),
    ensures
        0 <= out_flow(net, u) <= out_ceiling(net, u),
{
    let edges = net[u].edges;
    assert forall|k: int| 0 <= k < edges.len() implies 0 <= flow_of()(#[trigger] edges[k])
        <= ceiling_of()(edges[k]) by {
        assert(edge_bounded(net[u].edges[k]));
    }
    lemma_sum_by_not_negative(edges, flow_of());
    lemma_sum_by_monotone(edges, flow_of(), ceiling_of());
}

/// Networks of the same shape allow the same to leave each vertex.
pub proof fn lemma_out_ceiling_same_shape(a: Network, b: Network, u: int)
    requires
        same_shape(a, b),
        0 <= u < a.len(),
    ensures
        out_ceiling(a, u) == out_ceiling(b, u),
{
    assert forall|k: int| 0 <= k < a[u].edges.len() implies ceiling_of()(#[trigger] a[u].edges[k])
        == ceiling_of()(b[u].edges[k]) by {
        assert(a[u].edges[k].2 == b[u].edges[k].2);
    }
    lemma_sum_by_pointwise(a[u].edges, b[u].edges, ceiling_of());
}

/// The slack of a network is never negative.
pub proof fn lemma_slack_not_negative(net: Network)
    ensures
        0 <= slack(net),
{
    assert forall|u: int| 0 <= u < net.len() implies 0 <= room_at()(#[trigger] net[u]) by {
        lemma_sum_by_not_negative(net[u].edges, room_of());
    }
    lemma_sum_by_not_negative(net, room_at());
}

/// What can be pushed along a path can be pushed along each of its prefixes.
pub proof fn lemma_pushable_prefix(net: Network, path: Seq<usize>, amount: int, n: int)
    requires
        pushable(net, path, amount),
        0 <= n <= path.len(),
    ensures
        pushable(net, path.subrange(0, n), amount),
    decreases path.len(),
{
    if n == path.len() {
        assert(path.subrange(0, n) =~= path);
    } else if path.len() >= 2 {
        lemma_pushable_prefix(net, path.drop_last(), amount, n);
        assert(path.drop_last().subrange(0, n) =~= path.subrange(0, n));
    }
}

/// Pushing along a path keeps the network well formed and of the same shape,
/// keeps it feasible if it was, leaves every capacity total alone, and takes
/// the amount from the slack once for every pair of the path.
pub proof fn lemma_pushed(net: Network, path: Seq<usize>, amount: int)
    requires
        well_formed(net),
        pushable(net, path, amount),
    ensures
        well_formed(pushed(net, path, amount)),
        same_shape(net, pushed(net, path, amount)),
        feasible(net) ==> feasible(pushed(net, path, amount)),
        slack(pushed(net, path, amount)) == slack(net) - amount * hops(path),
        forall|w: int|
            0 <= w < net.len() ==> #[trigger] out_capacity(pushed(net, path, amount), w)
                == out_capacity(net, w),
        forall|w: int|
            #[trigger] in_capacity(pushed(net, path, amount), w) == in_capacity(net, w),
    decreases path.len(),
{
    if path.len() >= 2 {
        let before = pushed(net, path.drop_last(), amount);
        let u = path[path.len() - 2] as int;
        let v = path[path.len() - 1] as int;
        lemma_pushed(net, path.drop_last(), amount);
        lemma_added(before, u, v, amount);
        let after = pushed(net, path, amount);
        assert(same_shape(net, after));
        assert(amount * hops(path.drop_last()) + amount == amount * hops(path)) by (nonlinear_arith)
            requires
                hops(path) == hops(path.drop_last()) + 1,
        ;
        assert forall|w: int| 0 <= w < net.len() implies #[trigger] out_capacity(after, w)
            == out_capacity(net, w) by {
            assert(out_capacity(after, w) == out_capacity(before, w));
        }
        assert forall|w: int| #[trigger] in_capacity(after, w) == in_capacity(net, w) by {
            assert(in_capacity(after, w) == in_capacity(before, w));
        }
    } else {
        assert(amount * 0 == 0);
    }
}

/// On a path that passes through no node twice, the pairs do not interfere:
/// if the first edge of every pair can take `amount` as the network stands,
/// the whole path can be pushed. Pushing then raises by `amount` the flow out
/// of every node that the path leaves and the flow into every node that it
/// enters, and changes nothing else.
pub proof fn lemma_pushed_simple(net: Network, path: Seq<usize>, amount: int)
    requires
        well_formed(net),
        path.no_duplicates(),
        forall|i: int|
            0 <= i < path.len() - 1 ==> can_add(
                net,
                (#[trigger] path[i]) as int,
                path[i + 1] as int,
                amount,
            ),
    ensures
        pushable(net, path, amount),
        forall|w: int|
            0 <= w < net.len() && !leaves(path, w) ==> (#[trigger] pushed(net, path, amount)[w])
                == net[w],
        forall|w: int|
            0 <= w < net.len() ==> #[trigger] out_flow(pushed(net, path, amount), w) == out_flow(
                net,
                w,
            ) + if leaves(path, w) {
                amount
            } else {
                0
            },
        forall|w: int|
            #[trigger] in_flow(pushed(net, path, amount), w) == in_flow(net, w) + if enters(
                path,
                w,
            ) {
                amount
            } else {
                0
            },
    decreases path.len(),
{
    if path.len() >= 2 {
        let front = path.drop_last();
        let before = pushed(net, front, amount);
        let after = pushed(net, path, amount);
        let u = path[path.len() - 2] as int;
        let v = path[path.len() - 1] as int;
        assert(front.no_duplicates());
        assert forall|i: int| 0 <= i < front.len() - 1 implies can_add(
            net,
            (#[trigger] front[i]) as int,
            front[i + 1] as int,
            amount,
        ) by {
            assert(front[i] == path[i]);
        }
        lemma_pushed_simple(net, front, amount);
        lemma_pushed(net, front, amount);
        assert(can_add(net, path[path.len() - 2] as int, v, amount));
        assert(!leaves(front, u)) by {
            if leaves(front, u) {
                let i = choose|i: int| 0 <= i < front.len() - 1 && #[trigger] front[i] == u;
                assert(path[i] == path[path.len() - 2]);
            }
        }
        assert(before[u] == net[u]);
        assert(can_add(before, u, v, amount));
        lemma_added(before, u, v, amount);
        assert forall|w: int| leaves(path, w) <==> leaves(front, w) || w == u by {
            if leaves(front, w) {
                let i = choose|i: int| 0 <= i < front.len() - 1 && #[trigger] front[i] == w;
                assert(path[i] == w);
            }
            if w == u {
                assert(path[path.len() - 2] == w);
            }
            if leaves(path, w) {
                let i = choose|i: int| 0 <= i < path.len() - 1 && #[trigger] path[i] == w;
                if i < front.len() - 1 {
                    assert(front[i] == w);
                }
            }
        }
        assert forall|w: int| enters(path, w) <==> enters(front, w) || w == v by {
            if enters(front, w) {
                let i = choose|i: int| 1 <= i < front.len() && #[trigger] front[i] == w;
                assert(path[i] == w);
            }
            if w == v {
                assert(path[path.len() - 1] == w);
            }
            if enters(path, w) {
                let i = choose|i: int| 1 <= i < path.len() && #[trigger] path[i] == w;
                if i < front.len() {
                    assert(front[i] == w);
                }
            }
        }
        assert(!enters(front, v)) by {
            if enters(front, v) {
                let i = choose|i: int| 1 <= i < front.len() && #[trigger] front[i] == v;
                assert(path[i] == path[path.len() - 1]);
            }
        }
        assert forall|w: int| 0 <= w < net.len() && !leaves(path, w) implies (#[trigger] after[w])
            == net[w] by {
            assert(after[w] == before[w]);
        }
        assert forall|w: int| 0 <= w < net.len() implies #[trigger] out_flow(after, w) == out_flow(
            net,
            w,
        ) + if leaves(path, w) {
            amount
        } else {
            0
        } by {
            assert(out_flow(after, w) == out_flow(before, w) + if w == u {
                amount
            } else {
                0
            });
        }
        assert forall|w: int| #[trigger] in_flow(after, w) == in_flow(net, w) + if enters(path, w) {
            amount
        } else {
            0
        } by {
            assert(in_flow(after, w) == in_flow(before, w) + if w == v {
                amount
            } else {
                0
            });
        }
    }
}

/// The bottleneck of a path is no more than the residual capacity of any of
/// its pairs.
pub proof fn lemma_bottleneck_least(net: Network, path: Seq<usize>, i: int)
    requires
        0 <= i < path.len() - 1,
    ensures
        bottleneck(net, path) <= residual(net, path[i] as int, path[i + 1] as int),
    decreases path.len(),
{
    if path.len() > 2 && i < path.len() - 2 {
        lemma_bottleneck_least(net, path.drop_last(), i);
    }
}

/// A bound that every pair of a path keeps from below is kept by the
/// bottleneck of the path.
pub proof fn lemma_bottleneck_bound(net: Network, path: Seq<usize>, bound: int)
    requires
        path.len() >= 2,
        forall|i: int|
            0 <= i < path.len() - 1 ==> bound <= residual(
                net,
                (#[trigger] path[i]) as int,
                path[i + 1] as int,
            ),
    ensures
        bound <= bottleneck(net, path),
    decreases path.len(),
{
    if path.len() > 2 {
        let front = path.drop_last();
        assert forall|i: int| 0 <= i < front.len() - 1 implies bound <= residual(
            net,
            (#[trigger] front[i]) as int,
            front[i + 1] as int,
        ) by {
            assert(front[i] == path[i]);
        }
        lemma_bottleneck_bound(net, front, bound);
        assert(bound <= residual(net, path[path.len() - 2] as int, path[path.len() - 1] as int));
    } else {
        assert(bound <= residual(net, path[0] as int, path[1] as int));
    }
}

} // verus!
