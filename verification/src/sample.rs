//! Edge lists made up at random, for trying the library out.

use rand::distributions::Alphanumeric;
use rand::{thread_rng, Rng};
use vstd::prelude::*;
use vstd::string::StringExecFns;
use crate::graph::links;
use crate::network::Link;
use crate::render::{decimal, push_integer};
use crate::text::texts;

verus! {

/// A byte that is an ASCII letter or digit.
pub open spec fn is_alphanumeric(byte: u8) -> bool {
    ||| 48 <= byte <= 57
    ||| 65 <= byte <= 90
    ||| 97 <= byte <= 122
}

/// The letter that a sample gives: one of the ten from `a` to `j`, chosen by
/// the sample's last decimal digit.
pub open spec fn letter_of(sample: u8) -> char {
    (97 + sample % 10) as char
}

/// The name that a run of samples gives, letter for sample.
pub open spec fn name_of(samples: Seq<u8>) -> Seq<char> {
    samples.map_values(|sample: u8| letter_of(sample))
}

/// A name made up of the letters from `a` to `j`.
pub open spec fn lower_letters(name: Seq<char>) -> bool {
    forall|i: int| 0 <= i < name.len() ==> 'a' <= #[trigger] name[i] <= 'j'
}

/// The edges of `edges` that do not lead back to the node they leave, in
/// their order.
pub open spec fn proper(edges: Seq<Link>) -> Seq<Link> {
    edges.filter(|link: Link| link.0 != link.1)
}

/// The text that lists `edges`: for each a line of source, destination and
/// capacity with commas between them.
pub open spec fn edge_list(edges: Seq<Link>) -> Seq<char>
    decreases edges.len(),
{
    if edges.len() == 0 {
        Seq::<char>::empty()
    } else {
        edge_list(edges.drop_last()) + edges.last().0 + ","@ + edges.last().1 + ","@ + decimal(
            edges.last().2 as int,
        ) + "\n"@
    }
}

/// Draws `count` bytes with `rand::thread_rng().sample_iter(&Alphanumeric)`.
/// The generator never runs dry, so `count` bytes come back, and each is one
/// that the distribution `Alphanumeric` of `rand` hands out: an ASCII letter or
/// digit. Which ones is left open.
#[verifier::external_body]
fn alphanumeric_samples(count: usize) -> (samples: Vec<u8>)
    ensures
        samples@.len() == count,
        forall|i: int| 0 <= i < count ==> is_alphanumeric(#[trigger] samples@[i]),
{
    thread_rng().sample_iter(&Alphanumeric).take(count).collect()
}

/// Draws a byte with `rand::random::<u8>()`. Nothing is known of it.
#[verifier::external_body]
fn random_byte() -> u8 {
    rand::random::<u8>()
}

/// The name that `samples` give: for every sample the letter chosen by its
/// last decimal digit.
pub fn name_from_samples(samples: &Vec<u8>) -> (name: String)
    ensures
        name@ == name_of(samples@),
        lower_letters(name@),
{
    let mut name = String::new();
    let mut i: usize = 0;
    while i < samples.len()
        invariant
            i <= samples@.len(),
            name@ == name_of(samples@.subrange(0, i as int)),
        decreases samples@.len() - i,
    {
        let letter = (97u8 + samples[i] % 10) as char;
        name.push(letter);
        proof {
            assert(name@ =~= name_of(samples@.subrange(0, i + 1)));
        }
        i = i + 1;
    }
    proof {
        assert(samples@.subrange(0, i as int) =~= samples@);
    }
    name
}

/// A name of `n` letters from `a` to `j`, drawn at random.
pub fn random_string(n: usize) -> (name: String)
    ensures
        name@.len() == n,
        lower_letters(name@),
{
    let samples = alphanumeric_samples(n);
    name_from_samples(&samples)
}

/// The capacity that a byte gives: its remainder modulo twenty.
pub fn capacity_from_byte(byte: u8) -> (capacity: i32)
    ensures
        capacity == byte % 20,
{
    (byte % 20) as i32
}

/// A capacity from 0 to 19, drawn at random.
pub fn random_capacity() -> (capacity: i32)
    ensures
        0 <= capacity < 20,
{
    capacity_from_byte(random_byte())
}

/// Drops every edge whose source and destination bear the same name.
pub fn without_loops(edges: &Vec<(String, String, i32)>) -> (kept: Vec<(String, String, i32)>)
    ensures
        links(kept@) == proper(links(edges@)),
{
    let mut kept: Vec<(String, String, i32)> = Vec::new();
    let mut i: usize = 0;
    let ghost differ = |link: Link| link.0 != link.1;
    proof {
        assert(links(edges@).subrange(0, 0) =~= Seq::<Link>::empty());
        assert(links(kept@) =~= Seq::<Link>::empty());
        reveal(Seq::filter);
    }
    while i < edges.len()
        invariant
            i <= edges@.len(),
            differ == |link: Link| link.0 != link.1,
            links(kept@) == links(edges@).subrange(0, i as int).filter(differ),
        decreases edges@.len() - i,
    {
        let ghost before = links(edges@).subrange(0, i as int);
        let ghost now = links(edges@).subrange(0, i + 1);
        proof {
            assert(now =~= before.push(now.last()));
            before.lemma_filter_push(now.last(), differ);
        }
        if !(edges[i].0 == edges[i].1) {
            let source = edges[i].0.clone();
            let dest = edges[i].1.clone();
            proof {
                assert(links(kept@.push((source, dest, edges@[i as int].2))) =~= links(kept@).push(
                    now.last(),
                ));
            }
            kept.push((source, dest, edges[i].2));
        }
        i = i + 1;
    }
    proof {
        assert(links(edges@).subrange(0, i as int) =~= links(edges@));
    }
    kept
}

/// Every name of the list is a single letter from `a` to `j`.
pub open spec fn single_letters(names: Seq<Seq<char>>) -> bool {
    forall|i: int| 0 <= i < names.len() ==> (#[trigger] names[i]).len() == 1 && lower_letters(names[i])
}

/// The edge that stands at position `i` of a draft. A draft is made of thirty
/// names and twenty bytes: ten edges between two drawn names each, then five
/// from `s` to a drawn name, then five from a drawn name to `t`. The names are
/// used up in their order, and byte `i` gives the capacity of edge `i`.
pub open spec fn draft_at(names: Seq<Seq<char>>, bytes: Seq<u8>, i: int) -> Link {
    let capacity = (bytes[i] % 20) as i32;
    if i < 10 {
        (names[2 * i], names[2 * i + 1], capacity)
    } else if i < 15 {
        ("s"@, names[i + 10], capacity)
    } else {
        (names[i + 10], "t"@, capacity)
    }
}

/// The twenty edges of the draft that `names` and `bytes` give.
pub open spec fn draft(names: Seq<Seq<char>>, bytes: Seq<u8>) -> Seq<Link> {
    Seq::new(20, |i: int| draft_at(names, bytes, i))
}

/// The edge list comes of a draft of single-letter names by dropping the
/// edges that lead back to the node they leave.
pub open spec fn drawn(edges: Seq<Link>) -> bool {
    exists|names: Seq<Seq<char>>, bytes: Seq<u8>|
        names.len() == 30 && bytes.len() == 20 && single_letters(names) && edges == proper(
            #[trigger] draft(names, bytes),
        )
}

/// What follows for every edge of a drawn list: every name is `s`, `t` or one
/// letter from `a` to `j`, no edge leads back to the node it leaves, and
/// every capacity lies between 0 and 19.
pub open spec fn plausible(edges: Seq<Link>) -> bool {
    forall|i: int|
        0 <= i < edges.len() ==> {
            let link = #[trigger] edges[i];
            &&& link.0 != link.1
            &&& 0 <= link.2 < 20
            &&& link.0 == "s"@ || (link.0.len() == 1 && lower_letters(link.0))
            &&& link.1 == "t"@ || (link.1.len() == 1 && lower_letters(link.1))
        }
}

/// A drawn list has twenty edges at most, and each of them is plausible.
pub proof fn lemma_drawn(edges: Seq<Link>)
    requires
        drawn(edges),
    ensures
        edges.len() <= 20,
        plausible(edges),
{
    let (names, bytes) = choose|names: Seq<Seq<char>>, bytes: Seq<u8>|
        names.len() == 30 && bytes.len() == 20 && single_letters(names) && edges == proper(
            #[trigger] draft(names, bytes),
        );
    let all = draft(names, bytes);
    let differ = |link: Link| link.0 != link.1;
    all.lemma_filter_len(differ);
    assert forall|j: int| 0 <= j < edges.len() implies {
        let link = #[trigger] edges[j];
        &&& link.0 != link.1
        &&& 0 <= link.2 < 20
        &&& link.0 == "s"@ || (link.0.len() == 1 && lower_letters(link.0))
        &&& link.1 == "t"@ || (link.1.len() == 1 && lower_letters(link.1))
    } by {
        all.lemma_filter_contains_rev(differ, edges[j]);
        all.lemma_filter_pred(differ, j);
        let at = choose|at: int| 0 <= at < all.len() && all[at] == edges[j];
        assert(all[at] == draft_at(names, bytes, at));
        if at < 10 {
            assert(names[2 * at].len() == 1 && names[2 * at + 1].len() == 1);
        } else {
            assert(names[at + 10].len() == 1);
        }
    }
}

/// The twenty edges of the draft that `names` and `bytes` give.
pub fn draft_edges(names: &Vec<String>, bytes: &Vec<u8>) -> (edges: Vec<(String, String, i32)>)
    requires
        names@.len() == 30,
        bytes@.len() == 20,
    ensures
        links(edges@) == draft(texts(names@), bytes@),
{
    let mut edges: Vec<(String, String, i32)> = Vec::new();
    let mut i: usize = 0;
    while i < 20
        invariant
            i <= 20,
            names@.len() == 30,
            bytes@.len() == 20,
            edges@.len() == i,
            forall|j: int|
                0 <= j < i ==> #[trigger] links(edges@)[j] == draft_at(texts(names@), bytes@, j),
        decreases 20 - i,
    {
        let ghost before = links(edges@);
        let source = if i < 10 {
            names[2 * i].clone()
        } else if i < 15 {
            String::from_str("s")
        } else {
            names[i + 10].clone()
        };
        let dest = if i < 10 {
            names[2 * i + 1].clone()
        } else if i < 15 {
            names[i + 10].clone()
        } else {
            String::from_str("t")
        };
        edges.push((source, dest, capacity_from_byte(bytes[i])));
        proof {
            assert forall|j: int| 0 <= j < i + 1 implies #[trigger] links(edges@)[j] == draft_at(
                texts(names@),
                bytes@,
                j,
            ) by {
                if j < i {
                    assert(links(edges@)[j] == before[j]);
                }
            }
        }
        i = i + 1;
    }
    proof {
        assert(links(edges@) =~= draft(texts(names@), bytes@));
    }
    edges
}

/// An edge list drawn at random: ten edges between nodes with one-letter
/// names, five that leave `s` and five that reach `t`, each with a capacity
/// below twenty, less those that would lead back to the node they leave.
pub fn random_edge_list() -> (edges: Vec<(String, String, i32)>)
    ensures
        drawn(links(edges@)),
        plausible(links(edges@)),
        edges@.len() <= 20,
{
    let mut names: Vec<String> = Vec::new();
    while names.len() < 30
        invariant
            names@.len() <= 30,
            single_letters(texts(names@)),
        decreases 30 - names@.len(),
    {
        let ghost before = texts(names@);
        let name = random_string(1);
        names.push(name);
        proof {
            assert forall|i: int| 0 <= i < names@.len() implies (#[trigger] texts(names@)[i]).len()
                == 1 && lower_letters(texts(names@)[i]) by {
                if i < before.len() {
                    assert(texts(names@)[i] == before[i]);
                }
            }
        }
    }
    let mut bytes: Vec<u8> = Vec::new();
    while bytes.len() < 20
        invariant
            bytes@.len() <= 20,
        decreases 20 - bytes@.len(),
    {
        bytes.push(random_byte());
    }
    let all = draft_edges(&names, &bytes);
    let edges = without_loops(&all);
    proof {
        assert(links(edges@) == proper(draft(texts(names@), bytes@)));
        lemma_drawn(links(edges@));
    }
    edges
}

/// The text that lists `edges`, one line for each.
pub fn edge_list_text(edges: &Vec<(String, String, i32)>) -> (text: String)
    ensures
        text@ == edge_list(links(edges@)),
{
    let mut text = String::new();
    let mut i: usize = 0;
    proof {
        assert(links(edges@).subrange(0, 0) =~= Seq::<Link>::empty());
    }
    while i < edges.len()
        invariant
            i <= edges@.len(),
            text@ == edge_list(links(edges@).subrange(0, i as int)),
        decreases edges@.len() - i,
    {
        proof {
            let now = links(edges@).subrange(0, i + 1);
            assert(now.drop_last() =~= links(edges@).subrange(0, i as int));
        }
        text.append(edges[i].0.as_str());
        text.append(",");
        text.append(edges[i].1.as_str());
        text.append(",");
        push_integer(&mut text, edges[i].2);
        text.append("\n");
        i = i + 1;
    }
    proof {
        assert(links(edges@).subrange(0, i as int) =~= links(edges@));
    }
    text
}

} // verus!
