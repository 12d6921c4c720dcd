//! Edge lists as text: one edge to a line, written as the source's name, the
//! destination's name and the capacity, with commas between them.

use vstd::prelude::*;
use crate::graph::{fits_i32, links};
use crate::network::Link;

verus! {

/// `String::push` of std appends the character to the end of the string.
pub assume_specification[ String::push ](text: &mut String, ch: char)
    ensures
        final(text)@ == old(text)@.push(ch),
;

/// The pieces into which the separators cut a text: one more than there are
/// separators, none of them holding a separator, some perhaps empty.
pub open spec fn pieces(text: Seq<char>, separator: char) -> Seq<Seq<char>>
    decreases text.len(),
{
    if text.len() == 0 {
        seq![Seq::<char>::empty()]
    } else {
        let before = pieces(text.drop_last(), separator);
        if text.last() == separator {
            before.push(Seq::<char>::empty())
        } else {
            before.update(before.len() - 1, before.last().push(text.last()))
        }
    }
}

/// The texts of a list of strings.
pub open spec fn texts(items: Seq<String>) -> Seq<Seq<char>> {
    items.map_values(|s: String| s@)
}

/// One of the ten decimal digits.
pub open spec fn is_digit(ch: char) -> bool {
    '0' <= ch <= '9'
}

/// The value of a decimal digit.
pub open spec fn digit_value(ch: char) -> int {
    ch as int - '0' as int
}

/// Every character of the text is a decimal digit.
pub open spec fn all_digits(text: Seq<char>) -> bool {
    forall|i: int| 0 <= i < text.len() ==> is_digit(#[trigger] text[i])
}

/// The number that a run of decimal digits writes.
pub open spec fn number_of(digits: Seq<char>) -> int
    decreases digits.len(),
{
    if digits.len() == 0 {
        0
    } else {
        number_of(digits.drop_last()) * 10 + digit_value(digits.last())
    }
}

/// The text starts with a sign.
pub open spec fn has_sign(text: Seq<char>) -> bool {
    text.len() > 0 && (text[0] == '-' || text[0] == '+')
}

/// The text without its sign, if it starts with one.
pub open spec fn unsigned_part(text: Seq<char>) -> Seq<char> {
    if has_sign(text) {
        text.drop_first()
    } else {
        text
    }
}

/// The integer that a text writes in decimal: an optional `+` or `-`, then one
/// digit or more and nothing else.
pub open spec fn integer_of(text: Seq<char>) -> Option<int> {
    let digits = unsigned_part(text);
    if digits.len() == 0 || !all_digits(digits) {
        None
    } else if text[0] == '-' {
        Some(-number_of(digits))
    } else {
        Some(number_of(digits))
    }
}

/// The capacity that a text writes: its integer, if that is one an `i32` holds.
pub open spec fn capacity_of_text(text: Seq<char>) -> Option<i32> {
    match integer_of(text) {
        Some(value) => if fits_i32(value) {
            Some(value as i32)
        } else {
            None
        },
        None => None,
    }
}

/// The edge that a line describes: its first three fields, if it has three and
/// the third writes a capacity. Further fields are ignored.
pub open spec fn link_of(line: Seq<char>) -> Option<Link> {
    let fields = pieces(line, ',');
    if fields.len() < 3 {
        None
    } else {
        match capacity_of_text(fields[2]) {
            Some(weight) => Some((fields[0], fields[1], weight)),
            None => None,
        }
    }
}

/// The edges that the first `upto` of `lines` describe, in their order; lines
/// that describe none are passed over.
pub open spec fn links_upto(lines: Seq<Seq<char>>, upto: int) -> Seq<Link>
    decreases upto,
{
    if upto <= 0 {
        Seq::<Link>::empty()
    } else {
        match link_of(lines[upto - 1]) {
            Some(link) => links_upto(lines, upto - 1).push(link),
            None => links_upto(lines, upto - 1),
        }
    }
}

/// The edges that a text describes, line by line.
pub open spec fn links_of(text: Seq<char>) -> Seq<Link> {
    links_upto(pieces(text, '\n'), pieces(text, '\n').len() as int)
}

/// Cuts `text` at every `separator`.
pub fn split_text(text: &str, separator: char) -> (found: Vec<String>)
    ensures
        texts(found@) == pieces(text@, separator),
{
    let mut found: Vec<String> = Vec::new();
    let mut current = String::new();
    for ch in it: text.chars()
        invariant
            it.seq() == text@,
            texts(found@).push(current@) == pieces(text@.subrange(0, it.index()), separator),
    {
        proof {
            let now = text@.subrange(0, it.index() + 1);
            assert(now.drop_last() =~= text@.subrange(0, it.index()));
        }
        if ch == separator {
            found.push(current);
            current = String::new();
        } else {
            current.push(ch);
        }
    }
    proof {
        assert(text@.subrange(0, text@.len() as int) =~= text@);
        assert(texts(found@.push(current)) =~= texts(found@).push(current@));
    }
    found.push(current);
    found
}

/// Reads a capacity written in decimal, with or without a sign. Returns `None`
/// for a text that is no such number or whose number no `i32` holds.
pub fn parse_capacity(text: &str) -> (capacity: Option<i32>)
    ensures
        capacity == capacity_of_text(text@),
{
    let mut negative = false;
    let mut signed = false;
    let mut valid = true;
    let mut large = false;
    let mut first = true;
    let mut empty = true;
    let mut magnitude: i64 = 0;
    for ch in it: text.chars()
        invariant
            it.seq() == text@,
            it.index() <= text@.len(),
            signed == has_sign(text@.subrange(0, it.index())),
            signed ==> negative == (text@[0] == '-'),
            !signed ==> !negative,
            it.index() > 0 ==> signed == has_sign(text@),
            first == (it.index() == 0),
            empty == (unsigned_part(text@.subrange(0, it.index())).len() == 0),
            valid == all_digits(unsigned_part(text@.subrange(0, it.index()))),
            0 <= magnitude <= 0x8000_0000,
            valid && !large ==> magnitude == number_of(
                unsigned_part(text@.subrange(0, it.index())),
            ),
            valid && large ==> number_of(unsigned_part(text@.subrange(0, it.index())))
                > 0x8000_0000,
    {
        let ghost seen = text@.subrange(0, it.index());
        let ghost now = text@.subrange(0, it.index() + 1);
        proof {
            assert(now.drop_last() =~= seen);
            assert(now.last() == ch);
            if has_sign(now) && it.index() > 0 {
                assert(unsigned_part(now).drop_last() =~= unsigned_part(seen));
            }
            if !has_sign(now) {
                assert(unsigned_part(now).drop_last() =~= unsigned_part(seen));
            }
            if it.index() > 0 {
                assert(now[0] == seen[0]);
            }
        }
        if first && (ch == '-' || ch == '+') {
            first = false;
            signed = true;
            negative = ch == '-';
            proof {
                assert(unsigned_part(now) =~= Seq::<char>::empty());
            }
        } else {
            proof {
                assert(unsigned_part(now).last() == ch);
                if all_digits(unsigned_part(now)) {
                    assert(is_digit(unsigned_part(now)[unsigned_part(now).len() - 1]));
                    assert forall|i: int| 0 <= i < unsigned_part(seen).len() implies is_digit(
                        #[trigger] unsigned_part(seen)[i],
                    ) by {
                        assert(unsigned_part(seen)[i] == unsigned_part(now)[i]);
                    }
                }
                if all_digits(unsigned_part(seen)) && is_digit(ch) {
                    assert forall|i: int| 0 <= i < unsigned_part(now).len() implies is_digit(
                        #[trigger] unsigned_part(now)[i],
                    ) by {
                        if i < unsigned_part(seen).len() {
                            assert(unsigned_part(seen)[i] == unsigned_part(now)[i]);
                        }
                    }
                }
            }
            first = false;
            empty = false;
            if ch >= '0' && ch <= '9' {
                if !large {
                    magnitude = magnitude * 10 + (ch as u32 - '0' as u32) as i64;
                    if magnitude > 0x8000_0000 {
                        large = true;
                        magnitude = 0x8000_0000;
                    }
                }
            } else {
                valid = false;
            }
        }
    }
    proof {
        assert(text@.subrange(0, text@.len() as int) =~= text@);
    }
    if empty || !valid || large {
        None
    } else if negative {
        Some((-magnitude) as i32)
    } else if magnitude > 0x7fff_ffff {
        None
    } else {
        Some(magnitude as i32)
    }
}

/// Reads the edges that a text describes, line by line. A line describes an
/// edge if it has three fields or more and the third is a capacity; other
/// lines are passed over.
pub fn parse_edge_list(text: &str) -> (edges: Vec<(String, String, i32)>)
    ensures
        links(edges@) == links_of(text@),
{
    let lines = split_text(text, '\n');
    let mut edges: Vec<(String, String, i32)> = Vec::new();
    let mut i: usize = 0;
    proof {
        assert(links(edges@) =~= links_upto(texts(lines@), 0));
    }
    while i < lines.len()
        invariant
            i <= lines@.len(),
            texts(lines@) == pieces(text@, '\n'),
            links(edges@) == links_upto(texts(lines@), i as int),
        decreases lines@.len() - i,
    {
        let fields = split_text(lines[i].as_str(), ',');
        proof {
            assert(texts(lines@)[i as int] == lines@[i as int]@);
            assert(texts(lines@).len() == lines@.len());
        }
        if fields.len() >= 3 {
            proof {
                assert(texts(fields@)[0] == fields@[0]@);
                assert(texts(fields@)[1] == fields@[1]@);
                assert(texts(fields@)[2] == fields@[2]@);
            }
            match parse_capacity(fields[2].as_str()) {
                Some(weight) => {
                    let source = fields[0].clone();
                    let dest = fields[1].clone();
                    proof {
                        assert(links(edges@.push((source, dest, weight))) =~= links(edges@).push(
                            (source@, dest@, weight),
                        ));
                    }
                    edges.push((source, dest, weight));
                },
                None => {},
            }
        }
        i = i + 1;
    }
    proof {
        assert(texts(lines@).len() == lines@.len());
    }
    edges
}

} // verus!
