//! Lists written in one string: the kinds of a room, parted by spaces, and the names of
//! pinned classes, parted by commas.

use vstd::prelude::*;
use vstd::string::{StrSliceExecFns, StringExecFns};

use crate::rules::texts;

verus! {

/// The pieces into which the separator parts a text. There is always one piece more
/// than there are separators: an empty text has one empty piece, and two separators in
/// a row have an empty piece between them.
pub open spec fn pieces(text: Seq<char>, sep: char) -> Seq<Seq<char>>
    decreases text.len(),
{
    if text.len() == 0 {
        seq![Seq::empty()]
    } else {
        let before = pieces(text.drop_last(), sep);
        if text.last() == sep {
            before.push(Seq::empty())
        } else {
            before.drop_last().push(before.last().push(text.last()))
        }
    }
}

/// The items of a list in one text, with `sep` between them.
pub open spec fn joined(list: Seq<Seq<char>>, sep: Seq<char>) -> Seq<char>
    decreases list.len(),
{
    if list.len() == 0 {
        Seq::empty()
    } else if list.len() == 1 {
        list[0]
    } else {
        joined(list.drop_last(), sep) + sep + list.last()
    }
}

/// A text has at least one piece.
proof fn lemma_pieces_len(text: Seq<char>, sep: char)
    ensures
        pieces(text, sep).len() >= 1,
    decreases text.len(),
{
    if text.len() > 0 {
        lemma_pieces_len(text.drop_last(), sep);
    }
}

/// Joining the pieces of a text with the separator that parted them gives the text
/// back.
pub proof fn lemma_joined_pieces(text: Seq<char>, sep: char)
    ensures
        joined(pieces(text, sep), seq![sep]) == text,
    decreases text.len(),
{
    if text.len() == 0 {
        assert(joined(pieces(text, sep), seq![sep]) =~= text);
    } else {
        let head = text.drop_last();
        let before = pieces(head, sep);
        lemma_pieces_len(head, sep);
        lemma_joined_pieces(head, sep);
        let list = pieces(text, sep);
        if text.last() == sep {
            assert(list.drop_last() =~= before);
            assert(joined(list, seq![sep]) =~= head.push(sep));
        } else {
            let last = before.last().push(text.last());
            assert(list.last() == last);
            if before.len() == 1 {
                assert(joined(list, seq![sep]) =~= joined(before, seq![sep]).push(text.last()));
            } else {
                assert(list.drop_last() =~= before.drop_last());
                assert(joined(list, seq![sep]) =~= joined(before, seq![sep]).push(text.last()));
            }
        }
        assert(head.push(text.last()) =~= text);
    }
}

/// Parts `text` at every `sep`.
pub fn split(text: &str, sep: char) -> (list: Vec<String>)
    ensures
        texts(list@) == pieces(text@, sep),
{
    let n = text.unicode_len();
    let mut list: Vec<String> = Vec::new();
    let mut start: usize = 0;
    let mut i: usize = 0;
    proof {
        assert(text@.subrange(0, 0) =~= Seq::<char>::empty());
        assert(texts(list@).push(text@.subrange(0, 0)) =~= pieces(
            text@.subrange(0, 0),
            sep,
        ));
    }
    while i < n
        invariant
            n == text@.len(),
            start <= i <= n,
            texts(list@).push(text@.subrange(start as int, i as int)) == pieces(
                text@.subrange(0, i as int),
                sep,
            ),
        decreases n - i,
    {
        let ghost head = text@.subrange(0, i as int);
        let ghost next = text@.subrange(0, i + 1);
        let ghost done = texts(list@);
        let ghost piece = text@.subrange(start as int, i as int);
        proof {
            assert(next.drop_last() =~= head);
            assert(next.last() == text@[i as int]);
            assert(done.push(piece).drop_last() =~= done);
            assert(done.push(piece).last() == piece);
        }
        if text.get_char(i) == sep {
            let part = text.substring_char(start, i);
            list.push(part.to_owned());
            start = i + 1;
            proof {
                assert(texts(list@) =~= done.push(piece));
                assert(text@.subrange(start as int, i + 1) =~= Seq::<char>::empty());
            }
        } else {
            proof {
                assert(text@.subrange(start as int, i + 1) =~= piece.push(text@[i as int]));
            }
        }
        i += 1;
    }
    let part = text.substring_char(start, n);
    let ghost done = texts(list@);
    list.push(part.to_owned());
    proof {
        assert(text@.subrange(0, n as int) =~= text@);
        assert(texts(list@) =~= done.push(text@.subrange(start as int, n as int)));
    }
    list
}

/// Joins `list` with `sep` between its items.
pub fn join(list: &Vec<String>, sep: &str) -> (text: String)
    ensures
        text@ == joined(texts(list@), sep@),
{
    let mut text = String::new();
    let mut i: usize = 0;
    while i < list.len()
        invariant
            i <= list.len(),
            text@ == joined(texts(list@).subrange(0, i as int), sep@),
        decreases list.len() - i,
    {
        let ghost before = texts(list@).subrange(0, i as int);
        let ghost now = texts(list@).subrange(0, i + 1);
        proof {
            assert(now.drop_last() =~= before);
            assert(now.last() == list@[i as int]@);
        }
        if i > 0 {
            text = concat_text(text, sep);
        } else {
            proof {
                assert(text@ + list@[i as int]@ =~= list@[i as int]@);
            }
        }
        text = concat_text(text, list[i].as_str());
        i += 1;
    }
    proof {
        assert(texts(list@).subrange(0, list.len() as int) =~= texts(list@));
    }
    text
}

/// `head` followed by `tail`.
fn concat_text(head: String, tail: &str) -> (text: String)
    ensures
        text@ == head@ + tail@,
{
    head.concat(tail)
}

} // verus!
