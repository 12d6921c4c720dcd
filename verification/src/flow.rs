//! Augmenting paths and the flow they carry: one round of augmentation, and
//! the state in which repeated rounds end.

use vstd::prelude::*;
use crate::graph::{fits_i32, Graph, Node};
use crate::network::{
    feasible, first_edge_from, first_edge_to, has_edge, in_flow, lemma_first_edge_to, out_flow,
    residual, same_shape, well_formed, Network,
};
use crate::push::{
    added, bottleneck, can_add, ceiling_of, enters, hops, joined, leaves, lemma_added,
    lemma_bottleneck_least, lemma_out_ceiling_same_shape, lemma_out_flow_bounded,
    lemma_pushable_prefix, lemma_pushed, lemma_pushed_simple, lemma_slack_not_negative,
    out_ceiling, pushable, pushed, slack,
};
use crate::search::{
    answers, breadth_first, closed_under_edges, coherent, lemma_explore, lemma_trail, linked,
    open_path, outset, trail,
};
use crate::sums::{lemma_sum_by_prefix_least, lemma_sum_by_step, sum_by};

verus! {

/// The path along which the next round sends flow from `source` to `sink`:
/// the one that the breadth-first tree of the residual graph holds, if the
/// search from `source` discovers `sink` at all.
pub open spec fn augmenting_path(net: Network, source: usize, sink: usize) -> Option<Seq<usize>> {
    let tree = breadth_first(net, source);
    if tree.order.contains(sink) {
        Some(trail(tree, tree.order.index_of(sink)))
    } else {
        None
    }
}

/// No further round changes the network: there is no augmenting path, or it
/// has fewer than two nodes, or its bottleneck is not positive.
pub open spec fn settled(net: Network, source: usize, sink: usize) -> bool {
    match augmenting_path(net, source, sink) {
        Some(path) => path.len() < 2 || bottleneck(net, path) <= 0,
        None => true,
    }
}

/// The network after one round: the bottleneck of the augmenting path has been
/// pushed along it.
pub open spec fn augmented(net: Network, source: usize, sink: usize) -> Network {
    let path = augmenting_path(net, source, sink).unwrap();
    pushed(net, path, bottleneck(net, path))
}

/// The network after one round if a round is due, and the network itself if
/// it is settled.
pub open spec fn after_round(net: Network, source: usize, sink: usize) -> Network {
    if settled(net, source, sink) {
        net
    } else {
        augmented(net, source, sink)
    }
}

/// The network in which the rounds end: `net` itself if it is settled, and
/// otherwise what the rounds make of the network after one round.
pub open spec fn saturated(net: Network, source: usize, sink: usize) -> Network
    decreases slack(net),
    when well_formed(net) && source < net.len()
{
    if settled(net, source, sink) {
        net
    } else {
        proof {
            lemma_round(net, source, sink);
        }
        saturated(augmented(net, source, sink), source, sink)
    }
}

/// An open path is joined.
pub proof fn lemma_open_path_joined(net: Network, path: Seq<usize>)
    requires
        open_path(net, path),
    ensures
        joined(net, path),
{
    assert forall|i: int| 0 <= i < path.len() - 1 implies has_edge(
        net,
        (#[trigger] path[i]) as int,
        path[i + 1] as int,
    ) by {
        let u = path[i] as int;
        let v = path[i + 1] as int;
        assert(linked(net, u, v));
        lemma_first_edge_to(net[u].edges, v);
    }
}

/// The augmenting path, where there is one, leads from the source to the
/// sink along open edges and passes through no node twice.
pub proof fn lemma_augmenting_path(net: Network, source: usize, sink: usize)
    requires
        closed_under_edges(net),
        source < net.len(),
    ensures
        match augmenting_path(net, source, sink) {
            Some(path) => {
                &&& path.len() >= 1
                &&& path[0] == source
                &&& path.last() == sink
                &&& path.no_duplicates()
                &&& open_path(net, path)
                &&& joined(net, path)
            },
            None => true,
        },
        source == sink ==> augmenting_path(net, source, sink) == Some(seq![source]),
{
    let tree = breadth_first(net, source);
    assert(coherent(net, source, outset(source)));
    lemma_explore(net, source, outset(source));
    if tree.order.contains(sink) {
        let k = tree.order.index_of(sink);
        lemma_trail(net, source, tree, k);
        lemma_open_path_joined(net, trail(tree, k));
    }
    if source == sink {
        assert(tree.order[0] == sink);
        assert(tree.order.index_of(sink) == 0);
    }
}

/// A round that is due pushes a positive amount along a path that can take
/// it. It leaves the network well formed and of the same shape, lowers the
/// slack, raises the flow out of the source and into the sink by the
/// bottleneck, and raises the flow into and out of every other node alike.
pub proof fn lemma_round(net: Network, source: usize, sink: usize)
    requires
        well_formed(net),
        source < net.len(),
        !settled(net, source, sink),
    ensures
        source != sink,
        sink < net.len(),
        bottleneck(net, augmenting_path(net, source, sink).unwrap()) > 0,
        pushable(
            net,
            augmenting_path(net, source, sink).unwrap(),
            bottleneck(net, augmenting_path(net, source, sink).unwrap()),
        ),
        well_formed(augmented(net, source, sink)),
        same_shape(net, augmented(net, source, sink)),
        feasible(net) ==> feasible(augmented(net, source, sink)),
        0 <= slack(augmented(net, source, sink)) < slack(net),
        out_flow(augmented(net, source, sink), source as int) == out_flow(net, source as int)
            + bottleneck(net, augmenting_path(net, source, sink).unwrap()),
        in_flow(augmented(net, source, sink), sink as int) == in_flow(net, sink as int)
            + bottleneck(net, augmenting_path(net, source, sink).unwrap()),
        in_flow(augmented(net, source, sink), source as int) == in_flow(net, source as int),
        out_flow(augmented(net, source, sink), sink as int) == out_flow(net, sink as int),
        forall|w: int|
            0 <= w < net.len() && w != source && w != sink ==> #[trigger] out_flow(
                augmented(net, source, sink),
                w,
            ) - in_flow(augmented(net, source, sink), w) == out_flow(net, w) - in_flow(net, w),
{
    let path = augmenting_path(net, source, sink).unwrap();
    let amount = bottleneck(net, path);
    let after = augmented(net, source, sink);
    lemma_augmenting_path(net, source, sink);
    assert forall|i: int| 0 <= i < path.len() - 1 implies can_add(
        net,
        (#[trigger] path[i]) as int,
        path[i + 1] as int,
        amount,
    ) by {
        let u = path[i] as int;
        let v = path[i + 1] as int;
        lemma_bottleneck_least(net, path, i);
        lemma_first_edge_to(net[u].edges, v);
    }
    lemma_pushed_simple(net, path, amount);
    lemma_pushed(net, path, amount);
    lemma_slack_not_negative(after);
    assert(amount * hops(path) >= amount) by (nonlinear_arith)
        requires
            amount > 0,
            hops(path) >= 1,
    ;
    assert(leaves(path, source as int)) by {
        assert(path[0] == source);
    }
    assert(enters(path, sink as int)) by {
        assert(path[path.len() - 1] == sink);
    }
    assert(!enters(path, source as int)) by {
        if enters(path, source as int) {
            let i = choose|i: int| 1 <= i < path.len() && #[trigger] path[i] == source as int;
            assert(path[i] == path[0]);
        }
    }
    assert(!leaves(path, sink as int)) by {
        if leaves(path, sink as int) {
            let i = choose|i: int| 0 <= i < path.len() - 1 && #[trigger] path[i] == sink as int;
            assert(path[i] == path[path.len() - 1]);
        }
    }
    assert forall|w: int| 0 <= w < net.len() && w != source && w != sink implies #[trigger] out_flow(
        after,
        w,
    ) - in_flow(after, w) == out_flow(net, w) - in_flow(net, w) by {
        if leaves(path, w) {
            let i = choose|i: int| 0 <= i < path.len() - 1 && #[trigger] path[i] == w;
            assert(i != 0);
            assert(enters(path, w));
        }
        if enters(path, w) {
            let i = choose|i: int| 1 <= i < path.len() && #[trigger] path[i] == w;
            assert(i != path.len() - 1);
            assert(leaves(path, w));
        }
        assert(in_flow(after, w) == in_flow(net, w) + if enters(path, w) {
            amount
        } else {
            0
        });
    }
}

/// Where the rounds end: in a settled, well-formed network of the same shape,
/// feasible if the first was. On the way the flow out of the source and the
/// flow into the sink have grown by the same amount, nothing else has changed
/// at the source or at the sink, and at every other node the flow in and the
/// flow out have grown alike.
pub proof fn lemma_saturated(net: Network, source: usize, sink: usize)
    requires
        well_formed(net),
        source < net.len(),
    ensures
        settled(saturated(net, source, sink), source, sink),
        well_formed(saturated(net, source, sink)),
        same_shape(net, saturated(net, source, sink)),
        feasible(net) ==> feasible(saturated(net, source, sink)),
        slack(saturated(net, source, sink)) <= slack(net),
        out_flow(saturated(net, source, sink), source as int) >= out_flow(net, source as int),
        out_flow(saturated(net, source, sink), source as int) - out_flow(net, source as int)
            == in_flow(saturated(net, source, sink), sink as int) - in_flow(net, sink as int),
        source != sink ==> in_flow(saturated(net, source, sink), source as int) == in_flow(
            net,
            source as int,
        ),
        source != sink && sink < net.len() ==> out_flow(
            saturated(net, source, sink),
            sink as int,
        ) == out_flow(net, sink as int),
        forall|w: int|
            0 <= w < net.len() && w != source && w != sink ==> #[trigger] out_flow(
                saturated(net, source, sink),
                w,
            ) - in_flow(saturated(net, source, sink), w) == out_flow(net, w) - in_flow(net, w),
    decreases slack(net),
{
    if !settled(net, source, sink) {
        lemma_round(net, source, sink);
        let next = augmented(net, source, sink);
        lemma_saturated(next, source, sink);
        let last = saturated(net, source, sink);
        assert(last == saturated(next, source, sink));
        assert(same_shape(net, last));
        assert forall|w: int|
            0 <= w < net.len() && w != source && w != sink implies #[trigger] out_flow(last, w)
            - in_flow(last, w) == out_flow(net, w) - in_flow(net, w) by {
            assert(out_flow(last, w) - in_flow(last, w) == out_flow(next, w) - in_flow(next, w));
        }
    }
}

impl Graph {
    /// The position, among the edges of `source`, of the first one that leads
    /// to `dest`, or their number if none does.
    fn first_edge_index(&self, source: usize, dest: usize) -> (at: usize)
        requires
            source < self@.len(),
        ensures
            at == first_edge_to(self@[source as int].edges, dest as int),
    {
        let edges = &self.node_at(source).neighbors;
        let mut k: usize = 0;
        while k < edges.len()
            invariant
                k <= edges@.len(),
                edges@ == self@[source as int].edges,
                first_edge_from(edges@, dest as int, k as int) == first_edge_to(edges@, dest as int),
            decreases edges@.len() - k,
        {
            if edges[k].0 == dest {
                return k;
            }
            k = k + 1;
        }
        k
    }

    /// What the first edge from `source` to `dest` can still take: its
    /// capacity less its flow.
    pub fn residual_capacity(&self, source: usize, dest: usize) -> (residue: i32)
        requires
            has_edge(self@, source as int, dest as int),
        ensures
            residue == residual(self@, source as int, dest as int),
    {
        proof {
            use_type_invariant(self);
            self.lemma_wf();
        }
        let at = self.first_edge_index(source, dest);
        let edge = self.node_at(source).neighbors[at];
        edge.2 - edge.1
    }

    /// Adds `amount` to the flow of the first edge from `source` to `dest`.
    pub fn increase_flow(&mut self, source: usize, dest: usize, amount: i32)
        requires
            can_add(old(self)@, source as int, dest as int, amount as int),
        ensures
            final(self)@ == added(old(self)@, source as int, dest as int, amount as int),
            same_shape(old(self)@, final(self)@),
            feasible(old(self)@) ==> feasible(final(self)@),
    {
        proof {
            use_type_invariant(&*self);
            self.lemma_wf();
            lemma_added(self@, source as int, dest as int, amount as int);
        }
        let at = self.first_edge_index(source, dest);
        self.add_flow_at(source, at, amount);
    }

    /// The least residual capacity over the consecutive pairs of `path`, or
    /// `None` for a path of fewer than two nodes.
    pub fn find_min_of_path(&self, path: &Vec<usize>) -> (least: Option<i32>)
        requires
            joined(self@, path@),
        ensures
            match least {
                Some(amount) => path@.len() >= 2 && amount == bottleneck(self@, path@),
                None => path@.len() < 2,
            },
    {
        if path.len() < 2 {
            return None;
        }
        let mut least: i32 = self.residual_capacity(path[0], path[1]);
        let mut i: usize = 1;
        proof {
            assert(path@.subrange(0, 2) =~= seq![path@[0], path@[1]]);
        }
        while i < path.len() - 1
            invariant
                1 <= i < path@.len(),
                joined(self@, path@),
                least == bottleneck(self@, path@.subrange(0, i + 1)),
            decreases path@.len() - i,
        {
            let next = self.residual_capacity(path[i], path[i + 1]);
            proof {
                let longer = path@.subrange(0, i + 2);
                assert(longer.drop_last() =~= path@.subrange(0, i + 1));
                assert(longer[longer.len() - 2] == path@[i as int]);
                assert(longer[longer.len() - 1] == path@[i + 1]);
            }
            if next < least {
                least = next;
            }
            i = i + 1;
        }
        proof {
            assert(path@.subrange(0, i + 1) =~= path@);
        }
        Some(least)
    }

    /// Adds `addition` to the flow of the first edge between each two
    /// consecutive nodes of `path`, from the front of the path to its end.
    pub fn add_flow_in_path(&mut self, path: &Vec<usize>, addition: i32)
        requires
            pushable(old(self)@, path@, addition as int),
        ensures
            final(self)@ == pushed(old(self)@, path@, addition as int),
            same_shape(old(self)@, final(self)@),
            feasible(old(self)@) ==> feasible(final(self)@),
    {
        proof {
            use_type_invariant(&*self);
            self.lemma_wf();
            lemma_pushed(self@, path@, addition as int);
        }
        let ghost net = self@;
        if path.len() < 2 {
            return ;
        }
        let mut i: usize = 0;
        proof {
            assert(path@.subrange(0, 1).len() < 2);
        }
        while i < path.len() - 1
            invariant
                i < path@.len(),
                pushable(net, path@, addition as int),
                self@ == pushed(net, path@.subrange(0, i + 1), addition as int),
            decreases path@.len() - i,
        {
            proof {
                let longer = path@.subrange(0, i + 2);
                lemma_pushable_prefix(net, path@, addition as int, i + 2);
                assert(longer.drop_last() =~= path@.subrange(0, i + 1));
                assert(longer[longer.len() - 2] == path@[i as int]);
                assert(longer[longer.len() - 1] == path@[i + 1]);
            }
            self.increase_flow(path[i], path[i + 1], addition);
            i = i + 1;
        }
        proof {
            assert(path@.subrange(0, i + 1) =~= path@);
        }
    }

    /// Whether the flow out of `node` can be told in an `i32` whatever the
    /// rounds send: whether `node` is a node of the graph and the capacities
    /// of its edges, the negative ones left out, add up to no more than
    /// `i32::MAX`.
    pub fn outflow_fits(&self, node: usize) -> (fits: bool)
        ensures
            fits == (node < self@.len() && out_ceiling(self@, node as int) <= i32::MAX),
            fits ==> forall|sink: usize|
                fits_i32(#[trigger] out_flow(saturated(self@, node, sink), node as int)),
    {
        proof {
            use_type_invariant(self);
            self.lemma_wf();
        }
        if node >= self.node_count() {
            return false;
        }
        let ghost net = self@;
        let edges = &self.node_at(node).neighbors;
        let mut total: i64 = 0;
        let mut k: usize = 0;
        while k < edges.len()
            invariant
                k <= edges@.len(),
                net == self@,
                node < net.len(),
                edges@ == net[node as int].edges,
                0 <= total <= i32::MAX,
                total == sum_by(edges@.subrange(0, k as int), ceiling_of()),
            decreases edges@.len() - k,
        {
            proof {
                lemma_sum_by_step(edges@, k as int, ceiling_of());
            }
            if edges[k].2 > 0 {
                total = total + edges[k].2 as i64;
            }
            if total > i32::MAX as i64 {
                proof {
                                    lemma_sum_by_prefix_least(edges@, k + 1, ceiling_of());
                }
                return false;
            }
            k = k + 1;
        }
        proof {
            assert(edges@.subrange(0, k as int) =~= edges@);
            assert forall|sink: usize|
                fits_i32(#[trigger] out_flow(saturated(net, node, sink), node as int)) by {
                lemma_saturated(net, node, sink);
                lemma_out_ceiling_same_shape(net, saturated(net, node, sink), node as int);
                lemma_out_flow_bounded(saturated(net, node, sink), node as int);
            }
        }
        true
    }

    /// Runs one round: finds the augmenting path from `starting_id` to
    /// `ending_id` and pushes its bottleneck along it. Returns whether flow was
    /// pushed; where none was, the graph is settled and stays as it is.
    pub fn augment(&mut self, starting_id: usize, ending_id: usize) -> (moved: bool)
        requires
            starting_id < old(self)@.len(),
        ensures
            moved == !settled(old(self)@, starting_id, ending_id),
            final(self)@ == after_round(old(self)@, starting_id, ending_id),
            same_shape(old(self)@, final(self)@),
            feasible(old(self)@) ==> feasible(final(self)@),
    {
        proof {
            use_type_invariant(&*self);
            self.lemma_wf();
            lemma_augmenting_path(self@, starting_id, ending_id);
            assert(coherent(self@, starting_id, outset(starting_id)));
            lemma_explore(self@, starting_id, outset(starting_id));
        }
        let ghost net = self@;
        let ghost tree = breadth_first(net, starting_id);
        let is_goal = |node: &Node| -> (hit: bool)
            ensures
                hit == (node.id == ending_id),
            { node.id == ending_id };
        let found = self.breadth_first_search(starting_id, is_goal);
        match found {
            Some(path) => {
                proof {
                    let k = choose|k: int|
                        {
                            &&& 0 <= k < tree.order.len()
                            &&& #[trigger] answers(self, is_goal, tree.order[k], true)
                            &&& forall|j: int|
                                0 <= j < k ==> answers(self, is_goal, #[trigger] tree.order[j], false)
                            &&& path@ == trail(tree, k)
                        };
                    assert(self.node(tree.order[k] as int).id == ending_id);
                    assert(tree.order[k] == ending_id);
                    assert(tree.order.contains(ending_id));
                    assert(augmenting_path(net, starting_id, ending_id) == Some(path@));
                }
                match self.find_min_of_path(&path) {
                    Some(amount) => {
                        if amount <= 0 {
                            return false;
                        }
                        proof {
                            lemma_round(net, starting_id, ending_id);
                        }
                        self.add_flow_in_path(&path, amount);
                        true
                    },
                    None => false,
                }
            },
            None => {
                proof {
                    if tree.order.contains(ending_id) {
                        let j = tree.order.index_of(ending_id);
                        assert(answers(self, is_goal, tree.order[j], false));
                        assert(self.node(tree.order[j] as int).id == ending_id);
                    }
                }
                false
            },
        }
    }

    /// Sends as much flow from `starting_id` to `ending_id` as augmenting
    /// paths will take, round after round until the graph is settled, and
    /// returns the total flow that then leaves `starting_id`.
    pub fn cal_flow(&mut self, starting_id: usize, ending_id: usize) -> (flow: i32)
        requires
            starting_id < old(self)@.len(),
            fits_i32(out_flow(saturated(old(self)@, starting_id, ending_id), starting_id as int)),
        ensures
            final(self)@ == saturated(old(self)@, starting_id, ending_id),
            flow == out_flow(final(self)@, starting_id as int),
            settled(final(self)@, starting_id, ending_id),
            saturated(final(self)@, starting_id, ending_id) == final(self)@,
            same_shape(old(self)@, final(self)@),
            feasible(old(self)@) ==> feasible(final(self)@),
            out_flow(final(self)@, starting_id as int) - out_flow(old(self)@, starting_id as int)
                == in_flow(final(self)@, ending_id as int) - in_flow(old(self)@, ending_id as int),
            forall|node: int|
                0 <= node < old(self)@.len() && node != starting_id && node != ending_id
                    ==> #[trigger] out_flow(final(self)@, node) - in_flow(final(self)@, node)
                    == out_flow(old(self)@, node) - in_flow(old(self)@, node),
            starting_id == ending_id ==> final(self)@ == old(self)@,
    {
        let ghost net = self@;
        proof {
            use_type_invariant(&*self);
            self.lemma_wf();
            lemma_saturated(net, starting_id, ending_id);
            lemma_augmenting_path(net, starting_id, ending_id);
        }
        loop
            invariant
                starting_id < self@.len(),
                saturated(self@, starting_id, ending_id) == saturated(net, starting_id, ending_id),
            ensures
                self@ == saturated(net, starting_id, ending_id),
                starting_id < self@.len(),
            decreases slack(self@),
        {
            proof {
                use_type_invariant(&*self);
                self.lemma_wf();
                if !settled(self@, starting_id, ending_id) {
                    lemma_round(self@, starting_id, ending_id);
                }
            }
            if !self.augment(starting_id, ending_id) {
                break ;
            }
        }
        self.tally_out(starting_id).0
    }
}

} // verus!
