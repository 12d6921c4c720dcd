//! Graphs as text: a state diagram for display, and a plain listing.

use vstd::prelude::*;
use vstd::string::StringExecFns;
use crate::graph::Graph;
use crate::network::Network;

verus! {

/// The character that writes the digit `d`.
pub open spec fn digit_char(d: int) -> char {
    ('0' as int + d) as char
}

/// The digits that write a natural number in decimal, without leading zeros.
pub open spec fn digits_of(n: nat) -> Seq<char>
    decreases n,
{
    if n < 10 {
        seq![digit_char(n as int)]
    } else {
        digits_of(n / 10).push(digit_char((n % 10) as int))
    }
}

/// An integer written in decimal, with a `-` in front if it is negative.
pub open spec fn decimal(n: int) -> Seq<char> {
    if n < 0 {
        seq!['-'] + digits_of((-n) as nat)
    } else {
        digits_of(n as nat)
    }
}

/// The line that shows edge `k` of node `u`: after `lead`, the names of the
/// two nodes with an arrow between them, then `colon`, the flow, a slash and
/// the capacity.
pub open spec fn edge_line(net: Network, u: int, k: int, lead: Seq<char>, colon: Seq<char>) -> Seq<
    char,
> {
    let e = net[u].edges[k];
    lead + net[u].name + " --> "@ + net[e.0 as int].name + colon + decimal(e.1 as int) + "/"@
        + decimal(e.2 as int) + "\n"@
}

/// The lines of the first `upto` edges of node `u`.
pub open spec fn node_lines(net: Network, u: int, upto: int, lead: Seq<char>, colon: Seq<char>) -> Seq<
    char,
>
    decreases upto,
{
    if upto <= 0 {
        Seq::<char>::empty()
    } else {
        node_lines(net, u, upto - 1, lead, colon) + edge_line(net, u, upto - 1, lead, colon)
    }
}

/// The lines of all edges of the first `upto` nodes, node after node.
pub open spec fn edge_lines(net: Network, upto: int, lead: Seq<char>, colon: Seq<char>) -> Seq<char>
    decreases upto,
{
    if upto <= 0 {
        Seq::<char>::empty()
    } else {
        edge_lines(net, upto - 1, lead, colon) + node_lines(
            net,
            upto - 1,
            net[upto - 1].edges.len() as int,
            lead,
            colon,
        )
    }
}

/// The graph as a state diagram: a fenced block that holds one transition for
/// every edge, labelled with flow and capacity.
pub open spec fn diagram(net: Network) -> Seq<char> {
    "```mermaid\nstateDiagram-v2\n"@ + edge_lines(net, net.len() as int, ""@, ": "@) + "```"@
}

/// The entries that name the first `upto` nodes: the identifier in brackets,
/// an equals sign, the name, a comma and a space.
pub open spec fn legend(net: Network, upto: int) -> Seq<char>
    decreases upto,
{
    if upto <= 0 {
        Seq::<char>::empty()
    } else {
        legend(net, upto - 1) + "["@ + decimal(upto - 1) + "]="@ + net[upto - 1].name + ", "@
    }
}

/// The graph as a listing: a line that names the nodes, then one indented
/// line for every edge.
pub open spec fn listing(net: Network) -> Seq<char> {
    legend(net, net.len() as int) + "\n"@ + edge_lines(net, net.len() as int, "\t"@, "\t : "@)
}

/// Appends the decimal digits of `value` to `out`.
pub fn push_natural(out: &mut String, value: u64)
    ensures
        final(out)@ == old(out)@ + digits_of(value as nat),
    decreases value,
{
    if value >= 10 {
        push_natural(out, value / 10);
    }
    let digit = (value % 10) as u8;
    out.push((48u8 + digit) as char);
    proof {
        let n = value as nat;
        if n < 10 {
            assert(final(out)@ =~= old(out)@ + digits_of(n));
        } else {
            assert(final(out)@ =~= old(out)@ + digits_of(n));
        }
    }
}

/// Appends `value`, written in decimal, to `out`.
pub fn push_integer(out: &mut String, value: i32)
    ensures
        final(out)@ == old(out)@ + decimal(value as int),
{
    if value < 0 {
        out.push('-');
        push_natural(out, (-(value as i64)) as u64);
        proof {
            assert(final(out)@ =~= old(out)@ + decimal(value as int));
        }
    } else {
        push_natural(out, value as u64);
    }
}

impl Graph {
    /// Appends one line for every edge of the graph to `out`.
    fn push_edge_lines(&self, out: &mut String, lead: &str, colon: &str)
        ensures
            final(out)@ == old(out)@ + edge_lines(self@, self@.len() as int, lead@, colon@),
    {
        proof {
            use_type_invariant(self);
            self.lemma_wf();
        }
        let ghost start = out@;
        let ghost net = self@;
        let count = self.node_count();
        let mut u: usize = 0;
        proof {
            assert(out@ =~= start + edge_lines(net, 0, lead@, colon@));
        }
        while u < count
            invariant
                net == self@,
                crate::network::well_formed(net),
                count == net.len(),
                u <= count,
                out@ == start + edge_lines(net, u as int, lead@, colon@),
            decreases count - u,
        {
            let node = self.node_at(u);
            let ghost before = out@;
            let mut k: usize = 0;
            proof {
                assert(out@ =~= before + node_lines(net, u as int, 0, lead@, colon@));
            }
            while k < node.neighbors.len()
                invariant
                    net == self@,
                    crate::network::well_formed(net),
                    u < net.len(),
                    node@ == net[u as int],
                    k <= node.neighbors@.len(),
                    out@ == before + node_lines(net, u as int, k as int, lead@, colon@),
                decreases node.neighbors@.len() - k,
            {
                let edge = node.neighbors[k];
                let ghost so_far = out@;
                assert(edge == net[u as int].edges[k as int]);
                assert(edge.0 < net.len());
                out.append(lead);
                out.append(node.name.as_str());
                out.append(" --> ");
                out.append(self.node_at(edge.0).name.as_str());
                out.append(colon);
                push_integer(out, edge.1);
                out.append("/");
                push_integer(out, edge.2);
                out.append("\n");
                proof {
                    assert(out@ =~= so_far + edge_line(net, u as int, k as int, lead@, colon@));
                    assert(out@ =~= before + node_lines(net, u as int, k + 1, lead@, colon@));
                }
                k = k + 1;
            }
            proof {
                assert(out@ =~= start + edge_lines(net, u + 1, lead@, colon@));
            }
            u = u + 1;
        }
    }

    /// The graph as a state diagram, one transition for every edge.
    pub fn to_diagram(&self) -> (text: String)
        ensures
            text@ == diagram(self@),
    {
        let mut text = String::from_str("```mermaid\nstateDiagram-v2\n");
        self.push_edge_lines(&mut text, "", ": ");
        text.append("```");
        text
    }

    /// The graph as a listing: the nodes by identifier and name, then one line
    /// for every edge.
    pub fn to_listing(&self) -> (text: String)
        ensures
            text@ == listing(self@),
    {
        let ghost net = self@;
        let mut text = String::new();
        let count = self.node_count();
        let mut u: usize = 0;
        proof {
            assert(text@ =~= legend(net, 0));
        }
        while u < count
            invariant
                net == self@,
                count == net.len(),
                u <= count,
                text@ == legend(net, u as int),
            decreases count - u,
        {
            let ghost before = text@;
            text.append("[");
            push_natural(&mut text, u as u64);
            text.append("]=");
            text.append(self.node_at(u).name.as_str());
            text.append(", ");
            proof {
                assert(text@ =~= legend(net, u + 1));
            }
            u = u + 1;
        }
        text.append("\n");
        self.push_edge_lines(&mut text, "\t", "\t : ");
        text
    }
}

} // verus!
