//! Cutting text into pieces and joining pieces again.
use vstd::prelude::*;

use crate::text::{chars_of, opt_text, string_of, texts};

verus! {

// --- splitting -----------------------------------------------------------

/// The pieces of `text` between the occurrences of `sep`. There is always one
/// piece more than there are separators.
pub open spec fn split_on(text: Seq<char>, sep: char) -> Seq<Seq<char>>
    decreases text.len(),
{
    if text.len() == 0 {
        seq![Seq::<char>::empty()]
    } else {
        let before = split_on(text.drop_last(), sep);
        if text.last() == sep {
            before.push(Seq::empty())
        } else {
            before.drop_last().push(before.last().push(text.last()))
        }
    }
}

/// Splits `text` at every `sep`.
pub fn split(text: &str, sep: char) -> (parts: Vec<String>)
    ensures
        texts(parts@) == split_on(text@, sep),
        parts@.len() > 0,
{
    let t = chars_of(text);
    let mut parts: Vec<String> = Vec::new();
    let mut current = String::new();
    let mut i: usize = 0;
    assert(t@.take(0) =~= Seq::<char>::empty());
    assert(texts(parts@).push(current@) =~= split_on(t@.take(0), sep));
    while i < t.len()
        invariant
            i <= t@.len(),
            t@ == text@,
            texts(parts@).push(current@) == split_on(t@.take(i as int), sep),
        decreases t@.len() - i,
    {
        let c = t[i];
        let ghost done = texts(parts@);
        let ghost open = current@;
        assert(t@.take(i + 1).drop_last() =~= t@.take(i as int));
        assert(done.push(open).drop_last() =~= done);
        if c == sep {
            parts.push(current);
            current = String::new();
            assert(texts(parts@) =~= done.push(open));
        } else {
            current.push(c);
        }
        i += 1;
    }
    let ghost done = texts(parts@);
    parts.push(current);
    assert(texts(parts@) =~= done.push(current@));
    assert(t@.take(t@.len() as int) =~= t@);
    parts
}

/// Splitting gives at least one piece, and no piece holds the separator.
pub proof fn split_pieces_are_free_of_the_separator(text: Seq<char>, sep: char)
    ensures
        split_on(text, sep).len() > 0,
        forall|i: int|
            0 <= i < split_on(text, sep).len() ==> !(#[trigger] split_on(text, sep)[i]).contains(sep),
    decreases text.len(),
{
    if text.len() > 0 {
        split_pieces_are_free_of_the_separator(text.drop_last(), sep);
        let before = split_on(text.drop_last(), sep);
        let now = split_on(text, sep);
        assert forall|i: int| 0 <= i < now.len() implies !(#[trigger] now[i]).contains(sep) by {
            if text.last() == sep {
                if i < before.len() {
                    assert(now[i] == before[i]);
                }
            } else if i < before.len() - 1 {
                assert(now[i] == before[i]);
            } else {
                assert(!before.last().contains(sep));
                assert(now[i] == before.last().push(text.last()));
                if now[i].contains(sep) {
                    let k = choose|k: int| 0 <= k < now[i].len() && now[i][k] == sep;
                    if k < before.last().len() {
                        assert(before.last()[k] == sep);
                    }
                    assert(false);
                }
            }
        }
    }
}

/// The number of times that `c` stands in `text`.
pub open spec fn count_of(text: Seq<char>, c: char) -> nat
    decreases text.len(),
{
    if text.len() == 0 {
        0
    } else {
        count_of(text.drop_last(), c) + if text.last() == c {
            1nat
        } else {
            0nat
        }
    }
}

/// A text has one piece more than it has separators.
pub proof fn split_counts_separators(text: Seq<char>, sep: char)
    ensures
        split_on(text, sep).len() == count_of(text, sep) + 1,
    decreases text.len(),
{
    if text.len() > 0 {
        split_counts_separators(text.drop_last(), sep);
    }
}

/// The number of occurrences of `c` in `chars[..to]`.
pub fn count_before(chars: &[char], to: usize, c: char) -> (n: usize)
    requires
        to <= chars@.len(),
    ensures
        n == count_of(chars@.take(to as int), c),
        n <= to,
{
    let mut n: usize = 0;
    let mut i: usize = 0;
    assert(chars@.take(0) =~= Seq::<char>::empty());
    while i < to
        invariant
            i <= to <= chars@.len(),
            n == count_of(chars@.take(i as int), c),
            n <= i,
        decreases to - i,
    {
        assert(chars@.take(i + 1).drop_last() =~= chars@.take(i as int));
        if chars[i] == c {
            n += 1;
        }
        i += 1;
    }
    n
}

// --- cutting at the first separator --------------------------------------

/// The place of the first `c` in `text`, or the length of `text` where there
/// is none.
pub open spec fn first_of(text: Seq<char>, c: char) -> int
    decreases text.len(),
{
    if text.len() == 0 || text[0] == c {
        0
    } else {
        1 + first_of(text.drop_first(), c)
    }
}

/// What stands before the first `c`.
pub open spec fn head_of(text: Seq<char>, c: char) -> Seq<char> {
    text.take(first_of(text, c))
}

/// What stands behind the first `c`, where there is one.
pub open spec fn tail_of(text: Seq<char>, c: char) -> Option<Seq<char>> {
    if first_of(text, c) < text.len() {
        Some(text.skip(first_of(text, c) + 1))
    } else {
        None
    }
}

/// The place of the first `c` is the one with `c` on it and none before it.
pub proof fn first_of_is_the_first(text: Seq<char>, c: char)
    ensures
        0 <= first_of(text, c) <= text.len(),
        first_of(text, c) < text.len() ==> text[first_of(text, c)] == c,
        forall|i: int| 0 <= i < first_of(text, c) ==> text[i] != c,
    decreases text.len(),
{
    if text.len() > 0 && text[0] != c {
        let rest = text.drop_first();
        first_of_is_the_first(rest, c);
        assert forall|i: int| 0 <= i < first_of(text, c) implies text[i] != c by {
            if i > 0 {
                assert(rest[i - 1] == text[i]);
            }
        }
    }
}

/// A text cut at a separator: the first part holds no separator.
pub proof fn cut_at_the_separator(head: Seq<char>, c: char, tail: Seq<char>)
    requires
        !head.contains(c),
    ensures
        head_of(head + seq![c] + tail, c) == head,
        tail_of(head + seq![c] + tail, c) == Some(tail),
{
    let text = head + seq![c] + tail;
    first_of_is_the_first(text, c);
    let at = first_of(text, c);
    assert(text[head.len() as int] == c);
    if at < head.len() {
        assert(head[at] == c);
    }
    assert(at == head.len());
    assert(text.take(at) =~= head);
    assert(text.skip(at + 1) =~= tail);
}

/// Cuts a text at the first `c`.
pub fn cut_once(text: &str, c: char) -> (parts: (String, Option<String>))
    ensures
        parts.0@ == head_of(text@, c),
        opt_text(parts.1) == tail_of(text@, c),
{
    let t = chars_of(text);
    let n: usize = t.len();
    let mut at: usize = 0;
    while at < n && t[at] != c
        invariant
            at <= n,
            n == t@.len(),
            forall|i: int| 0 <= i < at ==> t@[i] != c,
        decreases n - at,
    {
        at += 1;
    }
    proof {
        first_of_is_the_first(t@, c);
        assert(first_of(t@, c) == at);
        assert(t@.subrange(0, at as int) =~= head_of(t@, c));
    }
    let head = string_of(t.as_slice(), 0, at);
    if at < n {
        let tail = string_of(t.as_slice(), at + 1, n);
        assert(tail@ =~= t@.skip(at + 1));
        (head, Some(tail))
    } else {
        (head, None)
    }
}

// --- joining -------------------------------------------------------------

/// The pieces one after another with `sep` between them.
pub open spec fn joined(parts: Seq<Seq<char>>, sep: Seq<char>) -> Seq<char>
    decreases parts.len(),
{
    if parts.len() == 0 {
        Seq::empty()
    } else if parts.len() == 1 {
        parts[0]
    } else {
        joined(parts.drop_last(), sep) + sep + parts.last()
    }
}

/// Joins the pieces with `sep` between them.
pub fn join(parts: &Vec<String>, sep: &str) -> (out: String)
    ensures
        out@ == joined(texts(parts@), sep@),
{
    let mut out = String::new();
    let mut i: usize = 0;
    let ghost all = texts(parts@);
    while i < parts.len()
        invariant
            i <= parts@.len(),
            all == texts(parts@),
            out@ == joined(all.take(i as int), sep@),
        decreases parts@.len() - i,
    {
        assert(all.take(i + 1).drop_last() =~= all.take(i as int));
        if i > 0 {
            out.append(sep);
            out.append(parts[i].as_str());
        } else {
            out.append(parts[i].as_str());
            assert(out@ =~= all[0]);
        }
        i += 1;
    }
    assert(all.take(parts@.len() as int) =~= all);
    out
}

/// Joining the pieces of a text with its separator gives the text back.
pub proof fn join_restores_split(text: Seq<char>, sep: char)
    ensures
        joined(split_on(text, sep), seq![sep]) == text,
    decreases text.len(),
{
    if text.len() > 0 {
        join_restores_split(text.drop_last(), sep);
        split_pieces_are_free_of_the_separator(text.drop_last(), sep);
        let before = split_on(text.drop_last(), sep);
        let now = split_on(text, sep);
        if text.last() == sep {
            assert(now.drop_last() =~= before);
            assert(joined(now, seq![sep]) =~= text);
        } else {
            assert(now.drop_last() =~= before.drop_last());
            assert(joined(now, seq![sep]) =~= joined(before, seq![sep]).push(text.last()));
            assert(joined(now, seq![sep]) =~= text);
        }
    }
}

pub(crate) proof fn lemma_split_append(text: Seq<char>, piece: Seq<char>, sep: char)
    requires
        !piece.contains(sep),
    ensures
        split_on(text + piece, sep) == split_on(text, sep).drop_last().push(
            split_on(text, sep).last() + piece,
        ),
    decreases piece.len(),
{
    split_pieces_are_free_of_the_separator(text, sep);
    let before = split_on(text, sep);
    if piece.len() == 0 {
        assert(text + piece =~= text);
        assert(before.last() + piece =~= before.last());
        assert(before.drop_last().push(before.last()) =~= before);
    } else {
        let short = piece.drop_last();
        assert(!short.contains(sep)) by {
            if short.contains(sep) {
                assert(piece[short.index_of(sep)] == sep);
            }
        }
        lemma_split_append(text, short, sep);
        assert((text + piece).drop_last() =~= text + short);
        assert(piece.contains(piece.last()));
        assert((before.last() + short).push(piece.last()) =~= before.last() + piece);
        assert(before.drop_last().push(before.last() + short).drop_last() =~= before.drop_last());
    }
}

/// Splitting joined pieces at the separator gives the pieces back, as long as
/// no piece holds the separator.
pub proof fn split_restores_join(parts: Seq<Seq<char>>, sep: char)
    requires
        parts.len() > 0,
        forall|i: int| 0 <= i < parts.len() ==> !(#[trigger] parts[i]).contains(sep),
    ensures
        split_on(joined(parts, seq![sep]), sep) == parts,
    decreases parts.len(),
{
    let last = parts.last();
    assert(!parts[parts.len() - 1].contains(sep));
    if parts.len() == 1 {
        lemma_split_append(Seq::empty(), last, sep);
        assert(Seq::<char>::empty() + last =~= last);
        assert(split_on(Seq::empty(), sep).drop_last().push(last) =~= parts);
    } else {
        let before = parts.drop_last();
        assert forall|i: int| 0 <= i < before.len() implies !(#[trigger] before[i]).contains(
            sep,
        ) by {
            assert(!parts[i].contains(sep));
        }
        split_restores_join(before, sep);
        let head = joined(before, seq![sep]) + seq![sep];
        assert(head.drop_last() =~= joined(before, seq![sep]));
        assert(split_on(head, sep) =~= before.push(Seq::empty()));
        lemma_split_append(head, last, sep);
        assert(Seq::<char>::empty() + last =~= last);
        assert(before.push(Seq::empty()).drop_last() =~= before);
        assert(before.push(last) =~= parts);
    }
}

/// Joining with one more piece in front.
pub proof fn joined_from_the_front(first: Seq<char>, rest: Seq<Seq<char>>, sep: Seq<char>)
    requires
        rest.len() > 0,
    ensures
        joined(seq![first] + rest, sep) == first + sep + joined(rest, sep),
    decreases rest.len(),
{
    let all = seq![first] + rest;
    if rest.len() == 1 {
        assert(all.drop_last() =~= seq![first]);
        assert(joined(all.drop_last(), sep) == first);
    } else {
        joined_from_the_front(first, rest.drop_last(), sep);
        assert(all.drop_last() =~= seq![first] + rest.drop_last());
        assert(joined(all, sep) =~= first + sep + joined(rest, sep));
    }
}

/// Joining two lists is joining each and putting the separator between them;
/// a single piece is joined to itself, and no piece at all to nothing.
pub proof fn lists_are_joined_piece_by_piece(
    a: Seq<Seq<char>>,
    b: Seq<Seq<char>>,
    piece: Seq<char>,
    sep: Seq<char>,
)
    ensures
        joined(Seq::empty(), sep) == Seq::<char>::empty(),
        joined(seq![piece], sep) == piece,
        a.len() > 0 && b.len() > 0 ==> joined(a + b, sep) == joined(a, sep) + sep + joined(b, sep),
    decreases b.len(),
{
    if a.len() > 0 && b.len() > 0 {
        assert((a + b).drop_last() =~= a + b.drop_last());
        if b.len() == 1 {
            assert(a + b.drop_last() =~= a);
        } else {
            lists_are_joined_piece_by_piece(a, b.drop_last(), piece, sep);
            assert(joined(a + b, sep) =~= joined(a, sep) + sep + joined(b, sep));
        }
    }
}

/// Splitting two texts with a separator between them is splitting each; a text
/// without a separator is one piece.
pub proof fn texts_are_split_piece_by_piece(a: Seq<char>, b: Seq<char>, sep: char)
    ensures
        split_on(a + seq![sep] + b, sep) == split_on(a, sep) + split_on(b, sep),
        !a.contains(sep) ==> split_on(a, sep) == seq![a],
    decreases b.len(),
{
    let text = a + seq![sep] + b;
    if b.len() == 0 {
        assert(text.drop_last() =~= a);
        assert(split_on(text, sep) =~= split_on(a, sep) + split_on(b, sep));
    } else {
        let short = b.drop_last();
        texts_are_split_piece_by_piece(a, short, sep);
        split_pieces_are_free_of_the_separator(short, sep);
        assert(text.drop_last() =~= a + seq![sep] + short);
        let before = split_on(a, sep) + split_on(short, sep);
        assert(before.last() == split_on(short, sep).last());
        assert(before.drop_last() =~= split_on(a, sep) + split_on(short, sep).drop_last());
        assert(split_on(text, sep) =~= split_on(a, sep) + split_on(b, sep));
    }
    if !a.contains(sep) {
        lemma_split_append(Seq::empty(), a, sep);
        assert(Seq::<char>::empty() + a =~= a);
        assert(split_on(Seq::empty(), sep).drop_last().push(a) =~= seq![a]);
    }
}

/// The number of separators in a text is the number of places where one stands.
pub proof fn separators_are_counted_by_place(text: Seq<char>, c: char)
    ensures
        count_of(text, c) == text.filter(|x: char| x == c).len(),
        split_on(text, c).len() == text.filter(|x: char| x == c).len() + 1,
    decreases text.len(),
{
    reveal(Seq::filter);
    split_counts_separators(text, c);
    if text.len() > 0 {
        separators_are_counted_by_place(text.drop_last(), c);
    }
}

// --- lines ---------------------------------------------------------------

/// `line` without one carriage return at its end.
pub open spec fn without_cr(line: Seq<char>) -> Seq<char> {
    if line.len() > 0 && line.last() == '\r' {
        line.drop_last()
    } else {
        line
    }
}

/// The lines of a text: a line ends with a line feed, or with a carriage
/// return and a line feed, and the last line may lack its ending.
pub open spec fn lines_of(text: Seq<char>) -> Seq<Seq<char>> {
    let parts = split_on(text, '\n');
    let ended = Seq::new((parts.len() - 1) as nat, |i: int| without_cr(parts[i]));
    if parts.last().len() == 0 {
        ended
    } else {
        ended.push(parts.last())
    }
}

/// Cuts a text into its lines.
pub fn lines(text: &str) -> (out: Vec<String>)
    ensures
        texts(out@) == lines_of(text@),
{
    let parts = split(text, '\n');
    let ghost all = texts(parts@);
    let mut out: Vec<String> = Vec::new();
    let mut i: usize = 0;
    while i < parts.len() - 1
        invariant
            parts@.len() > 0,
            i <= parts@.len() - 1,
            all == texts(parts@),
            texts(out@) == Seq::new(i as nat, |j: int| without_cr(all[j])),
        decreases parts@.len() - i,
    {
        let ghost before = texts(out@);
        let c = chars_of(parts[i].as_str());
        let end: usize = if c.len() > 0 && c[c.len() - 1] == '\r' {
            c.len() - 1
        } else {
            c.len()
        };
        let line = string_of(c.as_slice(), 0, end);
        assert(line@ =~= without_cr(all[i as int]));
        out.push(line);
        assert(texts(out@) =~= before.push(line@));
        i += 1;
        assert(texts(out@) =~= Seq::new(i as nat, |j: int| without_cr(all[j])));
    }
    let last = &parts[parts.len() - 1];
    if !last.as_str().is_empty() {
        let ghost before = texts(out@);
        out.push(last.clone());
        assert(texts(out@) =~= before.push(last@));
    }
    out
}

/// The lines of a text end at its line feeds, without a carriage return before
/// them; what stands behind the last line feed is a line unless it is empty.
pub proof fn lines_end_at_line_feeds(line: Seq<char>, rest: Seq<char>)
    requires
        !line.contains('\n'),
    ensures
        lines_of(Seq::empty()) == Seq::<Seq<char>>::empty(),
        line.len() > 0 ==> lines_of(line) == seq![line],
        lines_of(line + seq!['\n'] + rest) == seq![
            if line.len() > 0 && line[line.len() - 1] == '\r' {
                line.take(line.len() - 1)
            } else {
                line
            },
        ] + lines_of(rest),
{
    texts_are_split_piece_by_piece(line, rest, '\n');
    split_pieces_are_free_of_the_separator(rest, '\n');
    let text = line + seq!['\n'] + rest;
    let parts = split_on(text, '\n');
    assert(parts.last() == split_on(rest, '\n').last());
    assert(lines_of(Seq::empty()) =~= Seq::<Seq<char>>::empty());
    if line.len() > 0 {
        assert(lines_of(line) =~= seq![line]);
    }
    assert(line.len() > 0 ==> line.drop_last() =~= line.take(line.len() - 1));
    assert(lines_of(text) =~= seq![without_cr(line)] + lines_of(rest));
}

/// A text without the separator is its own first part, and nothing stands
/// behind it.
pub proof fn no_separator_to_cut_at(text: Seq<char>, c: char)
    requires
        !text.contains(c),
    ensures
        head_of(text, c) == text,
        tail_of(text, c) is None,
{
    first_of_is_the_first(text, c);
    let at = first_of(text, c);
    if at < text.len() {
        assert(text[at as int] == c);
    }
}

} // verus!
