//! The graph itself: a registry of named nodes with dense identifiers, and the
//! residual edges that each node owns.

use vstd::prelude::*;
use crate::network::{
    built, capacity_of, capacity_offered_to, capacity_toward, feasible, flow_of, flow_sent_to,
    flow_toward, id_after_ensure, in_capacity, in_flow, lemma_with_edge, lemma_with_flow_added,
    lemma_with_node, named, out_capacity, out_flow, well_formed, with_edge, with_edge_at,
    with_flow_added, with_node, Link, Network, Vertex,
};
use crate::sums::{lemma_sum_by_step, sum_by};

verus! {

/// A node: its identifier, its name, and its outgoing residual edges, each a
/// triple of target identifier, flow and capacity.
pub struct Node {
    pub id: usize,
    pub name: String,
    pub neighbors: Vec<(usize, i32, i32)>,
}

impl View for Node {
    type V = Vertex;

    open spec fn view(&self) -> Vertex {
        Vertex { name: self.name@, edges: self.neighbors@ }
    }
}

impl Node {
    /// A node made of the given parts.
    pub fn new(id: usize, name: String, neighbors: Vec<(usize, i32, i32)>) -> (node: Self)
        ensures
            node.id == id,
            node.name == name,
            node.neighbors == neighbors,
    {
        Self { id, name, neighbors }
    }
}

/// A directed graph with a flow and a capacity on every edge.
///
/// Nodes and edges are only ever added; flows change in place. Every value of
/// this type satisfies [`Graph::wf`].
pub struct Graph {
    nodes: Vec<Node>,
}

impl View for Graph {
    type V = Network;

    closed spec fn view(&self) -> Network {
        self.nodes@.map_values(|n: Node| n@)
    }
}

/// What a list of edges to be added says, each name taken as its text.
pub open spec fn links(edges: Seq<(String, String, i32)>) -> Seq<Link> {
    edges.map_values(|e: (String, String, i32)| (e.0@, e.1@, e.2))
}

/// Whether an integer can be held in an `i32`.
pub open spec fn fits_i32(x: int) -> bool {
    i32::MIN <= x <= i32::MAX
}

/// Whether a running 32-bit total `held` stands for the exact sum `exact`: the
/// two differ by a multiple of 2^32.
pub open spec fn stands_for(held: i32, exact: int) -> bool {
    (held - exact) % 0x1_0000_0000 == 0
}

impl Graph {
    /// The invariant of the type: the model is well formed and every node's
    /// identifier is its position.
    #[verifier::type_invariant]
    pub closed spec fn wf(&self) -> bool {
        &&& well_formed(self@)
        &&& forall|i: int| 0 <= i < self.nodes@.len() ==> (#[trigger] self.nodes@[i]).id == i
    }

    /// The node stored under identifier `i`.
    pub closed spec fn node(&self, i: int) -> Node {
        self.nodes@[i]
    }

    /// What the invariant means for the model and for the stored nodes.
    pub proof fn lemma_wf(&self)
        requires
            self.wf(),
        ensures
            well_formed(self@),
            forall|i: int|
                0 <= i < self@.len() ==> (#[trigger] self.node(i)).id == i && self.node(i)@
                    == self@[i],
    {
    }

    /// A graph without nodes.
    pub fn new() -> (graph: Self)
        ensures
            graph@ == Seq::<Vertex>::empty(),
    {
        let graph = Self { nodes: Vec::new() };
        assert(graph@ =~= Seq::<Vertex>::empty());
        graph
    }

    /// The graph that the edges of `edges` make, added one after the other
    /// from the first to the last.
    pub fn from_edges(edges: &Vec<(String, String, i32)>) -> (graph: Self)
        ensures
            graph@ == built(links(edges@)),
    {
        let mut graph = Self::new();
        let mut i: usize = 0;
        while i < edges.len()
            invariant
                i <= edges@.len(),
                graph@ == built(links(edges@).subrange(0, i as int)),
            decreases edges@.len() - i,
        {
            proof {
                let now = links(edges@).subrange(0, i + 1);
                assert(now.drop_last() =~= links(edges@).subrange(0, i as int));
                assert(now.last() == (edges@[i as int].0@, edges@[i as int].1@, edges@[i as int].2));
            }
            let source = edges[i].0.clone();
            let dest = edges[i].1.clone();
            graph.add_edge(source, dest, edges[i].2);
            i = i + 1;
        }
        proof {
            assert(links(edges@).subrange(0, i as int) =~= links(edges@));
        }
        graph
    }

    /// The number of nodes.
    pub fn node_count(&self) -> (count: usize)
        ensures
            count == self@.len(),
    {
        self.nodes.len()
    }

    /// The node with identifier `node`, for reading.
    pub fn node_at(&self, node: usize) -> (found: &Node)
        requires
            node < self@.len(),
        ensures
            *found == self.node(node as int),
            found.id == node,
            found@ == self@[node as int],
    {
        proof {
            use_type_invariant(self);
        }
        &self.nodes[node]
    }

    /// Returns the identifier of the node called `node`, registering a node of
    /// that name, without edges and under the next free identifier, if there is
    /// none yet.
    pub fn ensure_node(&mut self, node: String) -> (id: usize)
        ensures
            final(self)@ == with_node(old(self)@, node@),
            id == id_after_ensure(old(self)@, node@),
            id < final(self)@.len(),
            final(self)@[id as int].name == node@,
            forall|i: int| named(old(self)@, node@, i) ==> id == i && final(self)@ == old(self)@,
            (forall|i: int| !named(old(self)@, node@, i)) ==> id == old(self)@.len(),
            feasible(old(self)@) ==> feasible(final(self)@),
    {
        proof {
            use_type_invariant(&*self);
        }
        let mut i: usize = 0;
        while i < self.nodes.len()
            invariant
                self.wf(),
                *self == *old(self),
                i <= self.nodes@.len(),
                forall|j: int| 0 <= j < i ==> !named(self@, node@, j),
            decreases self.nodes@.len() - i,
        {
            if self.nodes[i].name == node {
                proof {
                    assert(named(self@, node@, i as int));
                    let c = choose|c: int| named(self@, node@, c);
                    assert(c == i);
                }
                return i;
            }
            i = i + 1;
        }
        let id = self.nodes.len();
        let ghost before = self@;
        let mut nodes: Vec<Node> = Vec::new();
        std::mem::swap(&mut nodes, &mut self.nodes);
        nodes.push(Node::new(id, node, Vec::new()));
        proof {
            let after = nodes@.map_values(|n: Node| n@);
            assert(after =~= with_node(before, node@));
            lemma_with_node(before, node@);
        }
        self.nodes = nodes;
        id
    }

    /// Adds an edge of capacity `weight` and no flow from the node called
    /// `source` to the node called `dest`, registering first `dest` and then
    /// `source` where they are not known yet. An edge between the same two
    /// nodes may already exist; the new one is kept beside it.
    pub fn add_edge(&mut self, source: String, dest: String, weight: i32)
        ensures
            final(self)@ == with_edge(old(self)@, source@, dest@, weight),
            feasible(final(self)@) <==> feasible(old(self)@) && weight >= 0,
    {
        proof {
            use_type_invariant(&*self);
        }
        let ghost start = self@;
        let dest_node = self.ensure_node(dest);
        let ghost middle = self@;
        let source_node = self.ensure_node(source);
        proof {
            use_type_invariant(&*self);
        }
        let ghost before = self@;
        let mut nodes: Vec<Node> = Vec::new();
        std::mem::swap(&mut nodes, &mut self.nodes);
        let entry = &mut nodes[source_node];
        entry.neighbors.push((dest_node, 0, weight));
        proof {
            let after = nodes@.map_values(|n: Node| n@);
            lemma_with_node(start, dest@);
            lemma_with_node(middle, source@);
            assert(after =~= with_edge_at(before, source_node as int, (dest_node, 0i32, weight)));
            lemma_with_edge(start, source@, dest@, weight);
        }
        self.nodes = nodes;
    }

    /// The identifier of the node called `node`, if there is one.
    pub fn lookup_node(&self, node: &str) -> (found: Option<usize>)
        ensures
            match found {
                Some(id) => named(self@, node@, id as int),
                None => forall|i: int| !named(self@, node@, i),
            },
            forall|i: int| named(self@, node@, i) ==> found == Some(i as usize),
    {
        proof {
            use_type_invariant(self);
        }
        let wanted = node.to_owned();
        let mut i: usize = 0;
        while i < self.nodes.len()
            invariant
                self.wf(),
                wanted@ == node@,
                i <= self.nodes@.len(),
                forall|j: int| 0 <= j < i ==> !named(self@, node@, j),
            decreases self.nodes@.len() - i,
        {
            if self.nodes[i].name == wanted {
                proof {
                    assert(named(self@, node@, i as int));
                    let c = choose|c: int| named(self@, node@, c);
                    assert(c == i);
                }
                return Some(i);
            }
            i = i + 1;
        }
        None
    }

    /// The name of the node with identifier `node`, if there is such a node.
    pub fn node_name(&self, node: usize) -> (name: Option<String>)
        ensures
            match name {
                Some(s) => node < self@.len() && s@ == self@[node as int].name,
                None => node >= self@.len(),
            },
    {
        if node < self.nodes.len() {
            Some(self.nodes[node].name.clone())
        } else {
            None
        }
    }

    /// Total flow and total capacity over every edge of the graph that leads
    /// to `node`.
    pub fn flow_in(&self, node: usize) -> (totals: (i32, i32))
        requires
            fits_i32(in_flow(self@, node as int)),
            fits_i32(in_capacity(self@, node as int)),
        ensures
            totals.0 == in_flow(self@, node as int),
            totals.1 == in_capacity(self@, node as int),
    {
        let ghost net = self@;
        let ghost v = node as int;
        let mut total_flow: i32 = 0;
        let mut total_capacity: i32 = 0;
        let mut u: usize = 0;
        while u < self.nodes.len()
            invariant
                net == self@,
                v == node,
                u <= self.nodes@.len(),
                stands_for(total_flow, sum_by(net.subrange(0, u as int), flow_sent_to(v))),
                stands_for(total_capacity, sum_by(net.subrange(0, u as int), capacity_offered_to(v))),
            decreases self.nodes@.len() - u,
        {
            let edges = &self.nodes[u].neighbors;
            let ghost flow_before = sum_by(net.subrange(0, u as int), flow_sent_to(v));
            let ghost capacity_before = sum_by(net.subrange(0, u as int), capacity_offered_to(v));
            let mut k: usize = 0;
            while k < edges.len()
                invariant
                    k <= edges@.len(),
                    v == node,
                    stands_for(
                        total_flow,
                        flow_before + sum_by(edges@.subrange(0, k as int), flow_toward(v)),
                    ),
                    stands_for(
                        total_capacity,
                        capacity_before + sum_by(edges@.subrange(0, k as int), capacity_toward(v)),
                    ),
                decreases edges@.len() - k,
            {
                proof {
                    lemma_sum_by_step(edges@, k as int, flow_toward(v));
                    lemma_sum_by_step(edges@, k as int, capacity_toward(v));
                }
                if edges[k].0 == node {
                    total_flow = total_flow.wrapping_add(edges[k].1);
                    total_capacity = total_capacity.wrapping_add(edges[k].2);
                }
                k = k + 1;
            }
            proof {
                assert(edges@.subrange(0, k as int) =~= edges@);
                assert(net[u as int].edges == edges@);
                lemma_sum_by_step(net, u as int, flow_sent_to(v));
                lemma_sum_by_step(net, u as int, capacity_offered_to(v));
            }
            u = u + 1;
        }
        proof {
            assert(net.subrange(0, u as int) =~= net);
        }
        (total_flow, total_capacity)
    }

    /// Total flow and total capacity over the outgoing edges of `node`, each
    /// held as a 32-bit running total.
    pub(crate) fn tally_out(&self, node: usize) -> (totals: (i32, i32))
        requires
            node < self@.len(),
        ensures
            stands_for(totals.0, out_flow(self@, node as int)),
            stands_for(totals.1, out_capacity(self@, node as int)),
    {
        let edges = &self.nodes[node].neighbors;
        assert(edges@ == self@[node as int].edges);
        let mut total_flow: i32 = 0;
        let mut total_capacity: i32 = 0;
        let mut k: usize = 0;
        while k < edges.len()
            invariant
                k <= edges@.len(),
                stands_for(total_flow, sum_by(edges@.subrange(0, k as int), flow_of())),
                stands_for(total_capacity, sum_by(edges@.subrange(0, k as int), capacity_of())),
            decreases edges@.len() - k,
        {
            proof {
                lemma_sum_by_step(edges@, k as int, flow_of());
                lemma_sum_by_step(edges@, k as int, capacity_of());
            }
            total_flow = total_flow.wrapping_add(edges[k].1);
            total_capacity = total_capacity.wrapping_add(edges[k].2);
            k = k + 1;
        }
        proof {
            assert(edges@.subrange(0, k as int) =~= edges@);
        }
        (total_flow, total_capacity)
    }

    /// Total flow and total capacity over the outgoing edges of `node`.
    pub fn flow_out(&self, node: usize) -> (totals: (i32, i32))
        requires
            node < self@.len(),
            fits_i32(out_flow(self@, node as int)),
            fits_i32(out_capacity(self@, node as int)),
        ensures
            totals.0 == out_flow(self@, node as int),
            totals.1 == out_capacity(self@, node as int),
    {
        self.tally_out(node)
    }

    /// Adds `amount` to the flow of edge `edge` of node `node`.
    pub(crate) fn add_flow_at(&mut self, node: usize, edge: usize, amount: i32)
        requires
            node < old(self)@.len(),
            edge < old(self)@[node as int].edges.len(),
            0 <= old(self)@[node as int].edges[edge as int].1 + amount
                <= old(self)@[node as int].edges[edge as int].2,
        ensures
            final(self)@ == with_flow_added(old(self)@, node as int, edge as int, amount as int),
    {
        proof {
            use_type_invariant(&*self);
        }
        let ghost before = self@;
        let mut nodes: Vec<Node> = Vec::new();
        std::mem::swap(&mut nodes, &mut self.nodes);
        let entry = &mut nodes[node].neighbors[edge];
        entry.1 = entry.1 + amount;
        proof {
            let after = nodes@.map_values(|n: Node| n@);
            assert(after =~= with_flow_added(before, node as int, edge as int, amount as int)) by {
                assert(after[node as int].edges =~= before[node as int].edges.update(
                    edge as int,
                    (
                        before[node as int].edges[edge as int].0,
                        (before[node as int].edges[edge as int].1 + amount) as i32,
                        before[node as int].edges[edge as int].2,
                    ),
                ));
            }
            lemma_with_flow_added(before, node as int, edge as int, amount as int);
        }
        self.nodes = nodes;
    }
}

} // verus!
