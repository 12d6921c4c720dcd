//! Cuts: no flow that is conserved at the inner nodes carries more from the
//! source to the sink than the edges across a cut between them can hold.

use vstd::prelude::*;
use crate::flow::{lemma_saturated, saturated};
use crate::network::{
    edge_feasible, feasible, flow_of, flow_sent_to, flow_toward, idle, in_flow, lemma_idle_totals,
    out_flow, same_shape, well_formed, Edge, Network, Vertex,
};
use crate::sums::{
    lemma_sum_by_monotone, lemma_sum_by_not_negative, lemma_sum_by_pointwise, lemma_sum_by_same,
    lemma_sum_by_step, lemma_sum_by_zero, sum_by,
};

verus! {

/// A cut is told by the nodes on the source's side of it.
pub type Side = spec_fn(int) -> bool;

/// The measure that reads an edge's flow if the edge leads to a node below
/// `upto` on the given side, and nothing otherwise.
spec fn flow_into_side(side: Side, upto: int) -> spec_fn(Edge) -> int {
    |e: Edge| if e.0 < upto && side(e.0 as int) { e.1 as int } else { 0 }
}

/// The measure that reads the flow a vertex sends to the nodes below `upto`
/// on the given side.
spec fn sent_into_side(side: Side, upto: int) -> spec_fn(Vertex) -> int {
    |n: Vertex| sum_by(n.edges, flow_into_side(side, upto))
}

/// The flow that leaves the first `upto` nodes of the given side, less the
/// flow that reaches them.
spec fn surplus(net: Network, side: Side, upto: int) -> int
    decreases upto,
{
    if upto <= 0 {
        0
    } else {
        surplus(net, side, upto - 1) + if side(upto - 1) {
            out_flow(net, upto - 1) - in_flow(net, upto - 1)
        } else {
            0
        }
    }
}

/// The flow that leaves the first `upto` nodes of the given side.
spec fn leaving(net: Network, side: Side, upto: int) -> int
    decreases upto,
{
    if upto <= 0 {
        0
    } else {
        leaving(net, side, upto - 1) + if side(upto - 1) {
            out_flow(net, upto - 1)
        } else {
            0
        }
    }
}

/// The flow that reaches the first `upto` nodes of the given side.
spec fn reaching(net: Network, side: Side, upto: int) -> int
    decreases upto,
{
    if upto <= 0 {
        0
    } else {
        reaching(net, side, upto - 1) + if side(upto - 1) {
            in_flow(net, upto - 1)
        } else {
            0
        }
    }
}

/// The measure that reads an edge's capacity if the edge leads out of the
/// given side, and nothing otherwise.
pub open spec fn capacity_across(side: Side) -> spec_fn(Edge) -> int {
    |e: Edge| if side(e.0 as int) { 0 } else { e.2 as int }
}

/// The capacities of the edges that lead from the first `upto` nodes of the
/// given side to a node off that side.
pub open spec fn cut_capacity_below(net: Network, side: Side, upto: int) -> int
    decreases upto,
{
    if upto <= 0 {
        0
    } else {
        cut_capacity_below(net, side, upto - 1) + if side(upto - 1) {
            sum_by(net[upto - 1].edges, capacity_across(side))
        } else {
            0
        }
    }
}

/// The capacity of the cut: the capacities of the edges that lead from a node
/// of the given side to a node off that side.
pub open spec fn cut_capacity(net: Network, side: Side) -> int {
    cut_capacity_below(net, side, net.len() as int)
}

/// A sum under a measure that is, element by element, the sum of two others.
proof fn lemma_sum_by_add<T>(
    s: Seq<T>,
    f: spec_fn(T) -> int,
    g: spec_fn(T) -> int,
    h: spec_fn(T) -> int,
)
    requires
        forall|i: int| 0 <= i < s.len() ==> h(#[trigger] s[i]) == f(s[i]) + g(s[i]),
    ensures
        sum_by(s, h) == sum_by(s, f) + sum_by(s, g),
    decreases s.len(),
{
    if s.len() > 0 {
        lemma_sum_by_add(s.drop_last(), f, g, h);
    }
}

/// The flow that reaches the first `upto` nodes of a side is the flow on the
/// edges that lead to them.
proof fn lemma_reaching(net: Network, side: Side, upto: int)
    requires
        0 <= upto,
    ensures
        reaching(net, side, upto) == sum_by(net, sent_into_side(side, upto)),
    decreases upto,
{
    let now = sent_into_side(side, upto);
    if upto == 0 {
        assert forall|u: int| 0 <= u < net.len() implies now(#[trigger] net[u]) == 0 by {
            lemma_sum_by_zero(net[u].edges, flow_into_side(side, upto));
        }
        lemma_sum_by_zero(net, now);
    } else {
        lemma_reaching(net, side, upto - 1);
        let before = sent_into_side(side, upto - 1);
        let v = upto - 1;
        if side(v) {
            let step = flow_sent_to(v);
            assert forall|u: int| 0 <= u < net.len() implies now(#[trigger] net[u]) == before(net[u])
                + step(net[u]) by {
                lemma_sum_by_add(
                    net[u].edges,
                    flow_into_side(side, upto - 1),
                    flow_toward(v),
                    flow_into_side(side, upto),
                );
            }
            lemma_sum_by_add(net, before, step, now);
        } else {
            assert forall|u: int| 0 <= u < net.len() implies now(#[trigger] net[u]) == before(
                net[u],
            ) by {
                assert forall|k: int| 0 <= k < net[u].edges.len() implies flow_into_side(side, upto)(
                    #[trigger] net[u].edges[k],
                ) == flow_into_side(side, upto - 1)(net[u].edges[k]) by {}
                lemma_sum_by_same(
                    net[u].edges,
                    flow_into_side(side, upto),
                    flow_into_side(side, upto - 1),
                );
            }
            lemma_sum_by_same(net, now, before);
        }
    }
}

/// The surplus of a side is what leaves it less what reaches it.
proof fn lemma_surplus(net: Network, side: Side, upto: int)
    ensures
        surplus(net, side, upto) == leaving(net, side, upto) - reaching(net, side, upto),
    decreases upto,
{
    if upto > 0 {
        lemma_surplus(net, side, upto - 1);
    }
}

/// The measure that reads an edge's flow if the edge leads out of the given
/// side, and nothing otherwise.
spec fn flow_across(side: Side) -> spec_fn(Edge) -> int {
    |e: Edge| if side(e.0 as int) { 0 } else { e.1 as int }
}

/// What leaves the first nodes of a side, less what they send to nodes of the
/// side, is no more than the cut can hold.
proof fn lemma_leaving_bounded(net: Network, side: Side, upto: int)
    requires
        well_formed(net),
        feasible(net),
        0 <= upto <= net.len(),
    ensures
        leaving(net, side, upto) - sum_by(
            net.subrange(0, upto),
            sent_into_side(side, net.len() as int),
        ) <= cut_capacity_below(net, side, upto),
    decreases upto,
{
    let whole = net.len() as int;
    let inward = flow_into_side(side, whole);
    if upto == 0 {
        assert(net.subrange(0, 0) =~= Seq::<Vertex>::empty());
    } else {
        let u = upto - 1;
        let edges = net[u].edges;
        lemma_leaving_bounded(net, side, u);
        lemma_sum_by_step(net, u, sent_into_side(side, whole));
        assert forall|k: int| 0 <= k < edges.len() implies 0 <= inward(#[trigger] edges[k]) by {
            assert(0 <= net[u].edges[k].1);
        }
        lemma_sum_by_not_negative(edges, inward);
        if side(u) {
            assert forall|k: int| 0 <= k < edges.len() implies flow_of()(#[trigger] edges[k])
                == inward(edges[k]) + flow_across(side)(edges[k]) by {
                assert(net[u].edges[k].0 < net.len());
            }
            lemma_sum_by_add(edges, inward, flow_across(side), flow_of());
            assert forall|k: int| 0 <= k < edges.len() implies flow_across(side)(
                #[trigger] edges[k],
            ) <= capacity_across(side)(edges[k]) by {
                assert(edge_feasible(net[u].edges[k]));
            }
            lemma_sum_by_monotone(edges, flow_across(side), capacity_across(side));
        }
    }
}

/// Where the flow is conserved at every node of a side but the source, the
/// surplus of the side is the surplus of the source.
proof fn lemma_surplus_of_source(net: Network, side: Side, source: int, upto: int)
    requires
        0 <= upto <= net.len(),
        0 <= source,
        side(source),
        forall|w: int|
            0 <= w < net.len() && side(w) && w != source ==> #[trigger] out_flow(net, w) == in_flow(
                net,
                w,
            ),
    ensures
        surplus(net, side, upto) == if source < upto {
            out_flow(net, source) - in_flow(net, source)
        } else {
            0
        },
    decreases upto,
{
    if upto > 0 {
        lemma_surplus_of_source(net, side, source, upto - 1);
        if side(upto - 1) && upto - 1 != source {
            assert(out_flow(net, upto - 1) == in_flow(net, upto - 1));
        }
    }
}

/// Networks of the same shape have the same cuts.
proof fn lemma_cut_capacity_same_shape(a: Network, b: Network, side: Side, upto: int)
    requires
        same_shape(a, b),
        0 <= upto <= a.len(),
    ensures
        cut_capacity_below(a, side, upto) == cut_capacity_below(b, side, upto),
    decreases upto,
{
    if upto > 0 {
        let u = upto - 1;
        lemma_cut_capacity_same_shape(a, b, side, u);
        assert forall|k: int| 0 <= k < a[u].edges.len() implies capacity_across(side)(
            #[trigger] a[u].edges[k],
        ) == capacity_across(side)(b[u].edges[k]) by {
            assert(a[u].edges[k].0 == b[u].edges[k].0 && a[u].edges[k].2 == b[u].edges[k].2);
        }
        lemma_sum_by_pointwise(a[u].edges, b[u].edges, capacity_across(side));
    }
}

/// In a feasible network whose flow is conserved at every node but the source
/// and the sink, no more leaves the source, beyond what reaches it, than the
/// edges across a cut can hold, whatever cut keeps the source on one side
/// and the sink on the other.
pub proof fn law_flow_bounded_by_cut(net: Network, source: usize, sink: usize, side: Side)
    requires
        well_formed(net),
        feasible(net),
        source < net.len(),
        side(source as int),
        !side(sink as int),
        forall|w: int|
            0 <= w < net.len() && w != source && w != sink ==> #[trigger] out_flow(net, w)
                == in_flow(net, w),
    ensures
        out_flow(net, source as int) - in_flow(net, source as int) <= cut_capacity(net, side),
{
    let whole = net.len() as int;
    lemma_surplus_of_source(net, side, source as int, whole);
    lemma_surplus(net, side, whole);
    lemma_reaching(net, side, whole);
    lemma_leaving_bounded(net, side, whole);
    assert(net.subrange(0, whole) =~= net);
}

/// The rounds, run on a feasible network that carries no flow, send no more
/// from the source to the sink than the edges across a cut can hold, whatever
/// cut keeps the source on one side and the sink on the other.
pub proof fn law_rounds_bounded_by_cut(net: Network, source: usize, sink: usize, side: Side)
    requires
        well_formed(net),
        feasible(net),
        idle(net),
        source < net.len(),
        side(source as int),
        !side(sink as int),
    ensures
        out_flow(saturated(net, source, sink), source as int) <= cut_capacity(net, side),
{
    let last = saturated(net, source, sink);
    lemma_saturated(net, source, sink);
    lemma_idle_totals(net, source as int);
    assert forall|w: int|
        0 <= w < last.len() && w != source && w != sink implies #[trigger] out_flow(last, w)
        == in_flow(last, w) by {
        lemma_idle_totals(net, w);
        assert(out_flow(last, w) - in_flow(last, w) == out_flow(net, w) - in_flow(net, w));
    }
    law_flow_bounded_by_cut(last, source, sink, side);
    lemma_cut_capacity_same_shape(net, last, side, net.len() as int);
}

} // verus!
