//! What is written as an edge list reads back as the same edges.

use vstd::prelude::*;
use crate::network::Link;
use crate::render::{decimal, digit_char, digits_of};
use crate::sample::{drawn, edge_list, lemma_drawn};
use crate::text::{
    all_digits, capacity_of_text, digit_value, has_sign, is_digit, link_of, links_of, links_upto,
    number_of, pieces, unsigned_part,
};

verus! {

/// The text holds neither a comma nor a line break.
pub open spec fn plain(text: Seq<char>) -> bool {
    forall|i: int| 0 <= i < text.len() ==> #[trigger] text[i] != ',' && text[i] != '\n'
}

/// The line that lists one edge, without its line break.
pub open spec fn line_of(link: Link) -> Seq<char> {
    link.0 + seq![','] + link.1 + seq![','] + decimal(link.2 as int)
}

/// A text always falls into one piece at least.
proof fn lemma_pieces_some(text: Seq<char>, separator: char)
    ensures
        pieces(text, separator).len() >= 1,
    decreases text.len(),
{
    if text.len() > 0 {
        lemma_pieces_some(text.drop_last(), separator);
    }
}

/// A separator at the end of a text opens a new, empty piece.
proof fn lemma_pieces_cut(text: Seq<char>, separator: char)
    ensures
        pieces(text.push(separator), separator) == pieces(text, separator).push(
            Seq::<char>::empty(),
        ),
{
    assert(text.push(separator).drop_last() =~= text);
}

/// Text without a separator, put after a text, lengthens its last piece.
proof fn lemma_pieces_extend(text: Seq<char>, more: Seq<char>, separator: char)
    requires
        forall|i: int| 0 <= i < more.len() ==> #[trigger] more[i] != separator,
    ensures
        pieces(text, separator).len() >= 1,
        pieces(text + more, separator) == pieces(text, separator).update(
            pieces(text, separator).len() - 1,
            pieces(text, separator).last() + more,
        ),
    decreases more.len(),
{
    lemma_pieces_some(text, separator);
    let old_pieces = pieces(text, separator);
    if more.len() == 0 {
        assert(text + more =~= text);
        assert(old_pieces.last() + more =~= old_pieces.last());
        assert(old_pieces.update(old_pieces.len() - 1, old_pieces.last()) =~= old_pieces);
    } else {
        let front = more.drop_last();
        lemma_pieces_extend(text, front, separator);
        assert((text + more).drop_last() =~= text + front);
        assert((text + more).last() == more[more.len() - 1]);
        let mid = pieces(text + front, separator);
        assert(mid.last() == old_pieces.last() + front);
        assert((old_pieces.last() + front).push(more.last()) =~= old_pieces.last() + more);
        assert(mid.update(mid.len() - 1, mid.last().push(more.last())) =~= old_pieces.update(
            old_pieces.len() - 1,
            old_pieces.last() + more,
        ));
    }
}

/// Text without a separator is one piece.
proof fn lemma_pieces_whole(text: Seq<char>, separator: char)
    requires
        forall|i: int| 0 <= i < text.len() ==> #[trigger] text[i] != separator,
    ensures
        pieces(text, separator) == seq![text],
{
    lemma_pieces_extend(Seq::<char>::empty(), text, separator);
    assert(Seq::<char>::empty() + text =~= text);
    assert(pieces(Seq::<char>::empty(), separator) == seq![Seq::<char>::empty()]);
    assert(seq![Seq::<char>::empty()].update(0, Seq::<char>::empty() + text) =~= seq![text]);
}

/// The digits of a number are digits, one at least, and write the number.
proof fn lemma_digits(n: nat)
    ensures
        digits_of(n).len() >= 1,
        all_digits(digits_of(n)),
        number_of(digits_of(n)) == n,
    decreases n,
{
    let d = digits_of(n);
    if n < 10 {
        assert(d == seq![digit_char(n as int)]);
        assert(d.drop_last() =~= Seq::<char>::empty());
        assert(number_of(d.drop_last()) == 0);
        assert(digit_value(d.last()) == n);
    } else {
        lemma_digits(n / 10);
        let front = digits_of(n / 10);
        assert(d == front.push(digit_char((n % 10) as int)));
        assert(d.drop_last() =~= front);
        assert(digit_value(d.last()) == n % 10);
        assert forall|i: int| 0 <= i < d.len() implies is_digit(#[trigger] d[i]) by {
            if i < front.len() {
                assert(d[i] == front[i]);
            }
        }
    }
}

/// A capacity written in decimal reads back as the same capacity, and the
/// writing holds neither a comma nor a line break.
pub proof fn lemma_decimal_reads_back(value: i32)
    ensures
        capacity_of_text(decimal(value as int)) == Some(value),
        plain(decimal(value as int)),
{
    let text = decimal(value as int);
    if value < 0 {
        let digits = digits_of((-value) as nat);
        lemma_digits((-value) as nat);
        assert(text == seq!['-'] + digits);
        assert(text[0] == '-');
        assert(text.drop_first() =~= digits);
        assert(unsigned_part(text) == digits);
        assert forall|i: int| 0 <= i < text.len() implies #[trigger] text[i] != ',' && text[i]
            != '\n' by {
            if i > 0 {
                assert(is_digit(digits[i - 1]));
            }
        }
    } else {
        let digits = digits_of(value as nat);
        lemma_digits(value as nat);
        assert(is_digit(digits[0]));
        assert(!has_sign(text));
        assert forall|i: int| 0 <= i < text.len() implies #[trigger] text[i] != ',' && text[i]
            != '\n' by {
            assert(is_digit(digits[i]));
        }
    }
}

/// A line that lists an edge between plainly named nodes reads back as that
/// edge, and holds no line break.
pub proof fn lemma_line_reads_back(link: Link)
    requires
        plain(link.0),
        plain(link.1),
    ensures
        link_of(line_of(link)) == Some(link),
        forall|i: int| 0 <= i < line_of(link).len() ==> #[trigger] line_of(link)[i] != '\n',
{
    let number = decimal(link.2 as int);
    lemma_decimal_reads_back(link.2);
    let a = link.0;
    let b = a.push(',');
    let c = b + link.1;
    let d = c.push(',');
    let e = d + number;
    assert(e =~= line_of(link));
    lemma_pieces_whole(a, ',');
    lemma_pieces_cut(a, ',');
    lemma_pieces_extend(b, link.1, ',');
    lemma_pieces_cut(c, ',');
    lemma_pieces_extend(d, number, ',');
    let empty = Seq::<char>::empty();
    assert(pieces(b, ',') =~= seq![a, empty]);
    assert(empty + link.1 =~= link.1);
    assert(pieces(c, ',') =~= seq![a, link.1]);
    assert(pieces(d, ',') =~= seq![a, link.1, empty]);
    assert(empty + number =~= number);
    assert(pieces(e, ',') =~= seq![a, link.1, number]);
    assert forall|i: int| 0 <= i < e.len() implies #[trigger] e[i] != '\n' by {
        if i < a.len() {
            assert(e[i] == a[i]);
        } else if i == a.len() {
        } else if i < c.len() {
            assert(e[i] == link.1[i - b.len()]);
        } else if i == c.len() {
        } else {
            assert(e[i] == number[i - d.len()]);
        }
    }
}

/// The lines of the text that lists `edges`: one for every edge, and an empty
/// one after the last line break.
proof fn lemma_edge_list_lines(edges: Seq<Link>)
    requires
        forall|i: int| 0 <= i < edges.len() ==> plain((#[trigger] edges[i]).0) && plain(edges[i].1),
    ensures
        pieces(edge_list(edges), '\n') == edges.map_values(|link: Link| line_of(link)).push(
            Seq::<char>::empty(),
        ),
    decreases edges.len(),
{
    reveal_strlit(",");
    reveal_strlit("\n");
    let lines = edges.map_values(|link: Link| line_of(link));
    let empty = Seq::<char>::empty();
    if edges.len() == 0 {
        assert(pieces(edge_list(edges), '\n') =~= lines.push(empty));
    } else {
        let front = edges.drop_last();
        let last = edges.last();
        let front_lines = front.map_values(|link: Link| line_of(link));
        assert forall|i: int| 0 <= i < front.len() implies plain((#[trigger] front[i]).0) && plain(
            front[i].1,
        ) by {
            assert(front[i] == edges[i]);
        }
        lemma_edge_list_lines(front);
        lemma_line_reads_back(last);
        let before = edge_list(front);
        assert(","@ =~= seq![',']);
        assert("\n"@ =~= seq!['\n']);
        assert(edge_list(edges) =~= (before + line_of(last)).push('\n'));
        lemma_pieces_extend(before, line_of(last), '\n');
        lemma_pieces_cut(before + line_of(last), '\n');
        assert(empty + line_of(last) =~= line_of(last));
        assert(pieces(before + line_of(last), '\n') =~= front_lines.push(line_of(last)));
        assert(front_lines.push(line_of(last)) =~= lines);
    }
}

/// The first lines of a list of lines that each list an edge read back as
/// those edges.
proof fn lemma_lines_read_back(edges: Seq<Link>, lines: Seq<Seq<char>>, upto: int)
    requires
        forall|i: int| 0 <= i < edges.len() ==> plain((#[trigger] edges[i]).0) && plain(edges[i].1),
        0 <= upto <= edges.len() <= lines.len(),
        forall|i: int| 0 <= i < edges.len() ==> #[trigger] lines[i] == line_of(edges[i]),
    ensures
        links_upto(lines, upto) == edges.subrange(0, upto),
    decreases upto,
{
    if upto == 0 {
        assert(links_upto(lines, upto) =~= edges.subrange(0, upto));
    } else {
        lemma_lines_read_back(edges, lines, upto - 1);
        lemma_line_reads_back(edges[upto - 1]);
        assert(lines[upto - 1] == line_of(edges[upto - 1]));
        assert(edges.subrange(0, upto - 1).push(edges[upto - 1]) =~= edges.subrange(0, upto));
    }
}

/// The text that lists edges between plainly named nodes reads back as those
/// edges, in their order.
pub proof fn law_edge_list_reads_back(edges: Seq<Link>)
    requires
        forall|i: int| 0 <= i < edges.len() ==> plain((#[trigger] edges[i]).0) && plain(edges[i].1),
    ensures
        links_of(edge_list(edges)) == edges,
{
    let lines = pieces(edge_list(edges), '\n');
    lemma_edge_list_lines(edges);
    lemma_lines_read_back(edges, lines, edges.len() as int);
    assert(lines[edges.len() as int] == Seq::<char>::empty());
    assert(pieces(Seq::<char>::empty(), ',') == seq![Seq::<char>::empty()]);
    assert(link_of(lines[edges.len() as int]) is None);
    assert(edges.subrange(0, edges.len() as int) =~= edges);
}

/// An edge list as [`crate::sample::random_edge_list`] draws it reads back
/// from its text.
pub proof fn law_drawn_list_reads_back(edges: Seq<Link>)
    requires
        drawn(edges),
    ensures
        links_of(edge_list(edges)) == edges,
{
    lemma_drawn(edges);
    reveal_strlit("s");
    reveal_strlit("t");
    assert forall|i: int| 0 <= i < edges.len() implies plain((#[trigger] edges[i]).0) && plain(
        edges[i].1,
    ) by {
        let link = edges[i];
        assert forall|j: int| 0 <= j < link.0.len() implies #[trigger] link.0[j] != ','
            && link.0[j] != '\n' by {
            if link.0 != "s"@ {
                assert('a' <= link.0[j] <= 'j');
            }
        }
        assert forall|j: int| 0 <= j < link.1.len() implies #[trigger] link.1[j] != ','
            && link.1[j] != '\n' by {
            if link.1 != "t"@ {
                assert('a' <= link.1[j] <= 'j');
            }
        }
    }
    law_edge_list_reads_back(edges);
}

} // verus!
