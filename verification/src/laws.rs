//! What holds of the library as a whole: of graphs as they are built, and of
//! the flow in which the rounds of augmentation end.

use vstd::prelude::*;
use crate::flow::{
    after_round, augmenting_path, lemma_augmenting_path, lemma_round, lemma_saturated, saturated,
    settled,
};
use crate::network::{
    built, edge_feasible, feasible, first_edge_to, has_edge, idle, in_flow, lemma_first_edge_to,
    lemma_idle_totals, lemma_with_edge, out_flow, residual, well_formed, Link, Network,
};
use crate::push::{bottleneck, lemma_bottleneck_bound};

use crate::reach::{
    lemma_breadth_first, lemma_discovered_iff_reachable, lemma_trail_shortest, open_walk, reachable,
};
use crate::search::breadth_first;

verus! {

/// A built network is well formed and carries no flow, and each of its edges
/// has `0 <= flow <= capacity` exactly if no capacity given was negative.
pub proof fn law_built(links: Seq<Link>)
    ensures
        well_formed(built(links)),
        idle(built(links)),
        feasible(built(links)) <==> forall|i: int| 0 <= i < links.len() ==> (#[trigger] links[i]).2 >= 0,
    decreases links.len(),
{
    if links.len() > 0 {
        let front = links.drop_last();
        law_built(front);
        lemma_with_edge(built(front), links.last().0, links.last().1, links.last().2);
        if forall|i: int| 0 <= i < links.len() ==> (#[trigger] links[i]).2 >= 0 {
            assert forall|i: int| 0 <= i < front.len() implies (#[trigger] front[i]).2 >= 0 by {
                assert(front[i] == links[i]);
            }
            assert(links[links.len() - 1].2 >= 0);
        }
        if feasible(built(links)) {
            assert forall|i: int| 0 <= i < links.len() implies (#[trigger] links[i]).2 >= 0 by {
                if i < front.len() {
                    assert(front[i] == links[i]);
                }
            }
        }
    }
}

/// In a well-formed network every edge of non-negative capacity has
/// `0 <= flow <= capacity`, whatever has been done to the network.
pub proof fn law_flow_within_capacity(net: Network, u: int, k: int)
    requires
        well_formed(net),
        0 <= u < net.len(),
        0 <= k < net[u].edges.len(),
        net[u].edges[k].2 >= 0,
    ensures
        edge_feasible(net[u].edges[k]),
{
}

/// The rounds keep `0 <= flow <= capacity` on every edge of a network in
/// which it held.
pub proof fn law_rounds_keep_feasible(net: Network, source: usize, sink: usize)
    requires
        well_formed(net),
        feasible(net),
        source < net.len(),
    ensures
        feasible(after_round(net, source, sink)),
        feasible(saturated(net, source, sink)),
{
    lemma_saturated(net, source, sink);
    if !settled(net, source, sink) {
        lemma_round(net, source, sink);
    }
}

/// Where the rounds have ended they end at once: the network is settled, a
/// further round changes nothing, and a further run ends in the same network,
/// with the same flow out of the source.
pub proof fn law_saturated_is_final(net: Network, source: usize, sink: usize)
    requires
        well_formed(net),
        source < net.len(),
    ensures
        settled(saturated(net, source, sink), source, sink),
        after_round(saturated(net, source, sink), source, sink) == saturated(net, source, sink),
        saturated(saturated(net, source, sink), source, sink) == saturated(net, source, sink),
        out_flow(saturated(saturated(net, source, sink), source, sink), source as int) == out_flow(
            saturated(net, source, sink),
            source as int,
        ),
{
    lemma_saturated(net, source, sink);
}

/// At every node other than the source and the sink, the rounds raise the
/// flow in and the flow out alike. So where the two were equal before, as they
/// are in a network that carries no flow, they are equal when the rounds end.
pub proof fn law_flow_conserved(net: Network, source: usize, sink: usize, node: usize)
    requires
        well_formed(net),
        source < net.len(),
        node < net.len(),
        node != source,
        node != sink,
    ensures
        in_flow(saturated(net, source, sink), node as int) - out_flow(
            saturated(net, source, sink),
            node as int,
        ) == in_flow(net, node as int) - out_flow(net, node as int),
        in_flow(net, node as int) == out_flow(net, node as int) ==> in_flow(
            saturated(net, source, sink),
            node as int,
        ) == out_flow(saturated(net, source, sink), node as int),
        idle(net) ==> in_flow(saturated(net, source, sink), node as int) == out_flow(
            saturated(net, source, sink),
            node as int,
        ),
{
    lemma_saturated(net, source, sink);
    if idle(net) {
        lemma_idle_totals(net, node as int);
    }
}

/// The rounds raise the flow out of the source and the flow into the sink by
/// the same amount. So where the two were equal before, as they are in a
/// network that carries no flow, the flow that leaves the source when the
/// rounds end is the flow that reaches the sink.
pub proof fn law_flow_out_is_flow_in(net: Network, source: usize, sink: usize)
    requires
        well_formed(net),
        source < net.len(),
    ensures
        out_flow(saturated(net, source, sink), source as int) - out_flow(net, source as int)
            == in_flow(saturated(net, source, sink), sink as int) - in_flow(net, sink as int),
        out_flow(net, source as int) == in_flow(net, sink as int) ==> out_flow(
            saturated(net, source, sink),
            source as int,
        ) == in_flow(saturated(net, source, sink), sink as int),
        idle(net) ==> out_flow(saturated(net, source, sink), source as int) == in_flow(
            saturated(net, source, sink),
            sink as int,
        ),
{
    lemma_saturated(net, source, sink);
    if idle(net) {
        lemma_idle_totals(net, source as int);
        lemma_idle_totals(net, sink as int);
    }
}

/// Where the source is the sink, no round is due: the network is settled as
/// it stands, and the rounds end in it unchanged.
pub proof fn law_source_is_sink(net: Network, node: usize)
    requires
        well_formed(net),
        node < net.len(),
    ensures
        settled(net, node, node),
        after_round(net, node, node) == net,
        saturated(net, node, node) == net,
{
    lemma_augmenting_path(net, node, node);
}

/// There is an augmenting path exactly if open edges lead from the source to
/// the sink, and it has no more nodes than any walk along open edges from the
/// one to the other.
pub proof fn law_augmenting_path_is_shortest(
    net: Network,
    source: usize,
    sink: usize,
    walk: Seq<usize>,
)
    requires
        well_formed(net),
        source < net.len(),
    ensures
        augmenting_path(net, source, sink) is Some <==> reachable(net, source, sink),
        open_walk(net, source, sink, walk) ==> augmenting_path(net, source, sink) is Some
            && augmenting_path(net, source, sink).unwrap().len() <= walk.len(),
{
    let tree = breadth_first(net, source);
    lemma_discovered_iff_reachable(net, source, sink);
    lemma_breadth_first(net, source);
    if open_walk(net, source, sink, walk) {
        assert(reachable(net, source, sink));
        let k = tree.order.index_of(sink);
        lemma_trail_shortest(net, source, k, walk);
    }
}

/// In a feasible network no augmenting path has a negative bottleneck: the
/// rounds end where there is no path, where source and sink are one, or where
/// the bottleneck is zero.
pub proof fn law_bottleneck_not_negative(net: Network, source: usize, sink: usize)
    requires
        well_formed(net),
        feasible(net),
        source < net.len(),
    ensures
        match augmenting_path(net, source, sink) {
            Some(path) => path.len() >= 2 ==> bottleneck(net, path) >= 0,
            None => true,
        },
        settled(net, source, sink) <==> match augmenting_path(net, source, sink) {
            Some(path) => path.len() < 2 || bottleneck(net, path) == 0,
            None => true,
        },
{
    lemma_augmenting_path(net, source, sink);
    match augmenting_path(net, source, sink) {
        Some(path) => {
            if path.len() >= 2 {
                assert forall|i: int| 0 <= i < path.len() - 1 implies 0 <= residual(
                    net,
                    (#[trigger] path[i]) as int,
                    path[i + 1] as int,
                ) by {
                    let u = path[i] as int;
                    let v = path[i + 1] as int;
                    assert(has_edge(net, u, v));
                    lemma_first_edge_to(net[u].edges, v);
                    assert(edge_feasible(net[u].edges[first_edge_to(net[u].edges, v)]));
                }
                lemma_bottleneck_bound(net, path, 0);
            }
        },
        None => {},
    }
}

} // verus!
