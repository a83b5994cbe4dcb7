//! A corpus as it comes from a file: one text, to be cut into the lines that
//! training takes.

use crate::text::{is_space, is_whitespace, tokens};
use vstd::prelude::*;

verus! {

/// Whether `line` is blank: it holds nothing but white space.
pub open spec fn is_blank(line: Seq<char>) -> bool {
    forall|i: int| 0 <= i < line.len() ==> is_space(#[trigger] line[i])
}

/// How many characters stand at the front of `text` before its first line
/// feed, or before its end.
pub open spec fn line_len(text: Seq<char>) -> nat
    decreases text.len(),
{
    if text.len() == 0 || text[0] == '\n' {
        0
    } else {
        1 + line_len(text.drop_first())
    }
}

/// The sentences of `text`: the pieces between its line feeds, from first
/// to last, without those that are blank.
pub open spec fn sentences_of(text: Seq<char>) -> Seq<Seq<char>>
    decreases text.len(),
    via sentences_of_decreases
{
    let first = text.take(line_len(text) as int);
    let others = if line_len(text) >= text.len() {
        Seq::empty()
    } else {
        sentences_of(text.skip(line_len(text) as int + 1))
    };
    if is_blank(first) {
        others
    } else {
        seq![first] + others
    }
}

#[via_fn]
proof fn sentences_of_decreases(text: Seq<char>) {
    line_len_marks_line(text);
}

/// The first line holds no line feed, and what follows it, if anything,
/// starts with one.
pub proof fn line_len_marks_line(text: Seq<char>)
    ensures
        line_len(text) <= text.len(),
        forall|i: int| 0 <= i < line_len(text) ==> #[trigger] text[i] != '\n',
        line_len(text) < text.len() ==> text[line_len(text) as int] == '\n',
    decreases text.len(),
{
    if text.len() > 0 && text[0] != '\n' {
        let tail = text.drop_first();
        line_len_marks_line(tail);
        assert forall|i: int| 0 <= i < line_len(text) implies #[trigger] text[i] != '\n' by {
            if i > 0 {
                assert(text[i] == tail[i - 1]);
            }
        }
        if line_len(text) < text.len() {
            assert(text[line_len(text) as int] == tail[line_len(tail) as int]);
        }
    }
}

/// A piece without a line feed that ends at a line feed, or at the end of
/// the text, is the first line of the text.
pub proof fn line_len_after_piece(piece: Seq<char>, rest: Seq<char>)
    requires
        forall|i: int| 0 <= i < piece.len() ==> #[trigger] piece[i] != '\n',
        rest.len() == 0 || rest[0] == '\n',
    ensures
        line_len(piece + rest) == piece.len(),
    decreases piece.len(),
{
    let text = piece + rest;
    if piece.len() == 0 {
        assert(text =~= rest);
    } else {
        assert(text[0] == piece[0]);
        assert(text.drop_first() =~= piece.drop_first() + rest);
        assert forall|i: int| 0 <= i < piece.drop_first().len() implies #[trigger] piece.drop_first()[i]
            != '\n' by {
            assert(piece.drop_first()[i] == piece[i + 1]);
        }
        line_len_after_piece(piece.drop_first(), rest);
    }
}

/// A line is blank just where it has no token.
pub proof fn blank_has_no_tokens(line: Seq<char>)
    ensures
        is_blank(line) <==> tokens(line).len() == 0,
    decreases line.len(),
{
    if line.len() > 0 {
        let tail = line.drop_first();
        blank_has_no_tokens(tail);
        if is_space(line[0]) {
            assert(tokens(line) == tokens(tail));
            if is_blank(line) {
                assert forall|i: int| 0 <= i < tail.len() implies is_space(#[trigger] tail[i]) by {
                    assert(tail[i] == line[i + 1]);
                }
            }
            if is_blank(tail) {
                assert forall|i: int| 0 <= i < line.len() implies is_space(#[trigger] line[i]) by {
                    if i > 0 {
                        assert(line[i] == tail[i - 1]);
                    }
                }
            }
        } else {
            assert(tokens(line).len() > 0);
        }
    }
}

/// Cuts `text` at its line feeds and gives the pieces that are not blank.
pub fn sentences(text: &str) -> (lines: Vec<String>)
    ensures
        lines.deep_view() == sentences_of(text@),
{
    let mut lines: Vec<String> = Vec::new();
    let mut line = String::new();
    let mut blank = true;
    proof {
        assert(lines.deep_view() =~= Seq::<Seq<char>>::empty());
        assert(line@ + text@.skip(0) =~= text@);
    }
    for c in it: text.chars()
        invariant
            it.seq() == text@,
            forall|i: int| 0 <= i < line@.len() ==> #[trigger] line@[i] != '\n',
            blank == is_blank(line@),
            sentences_of(text@) == lines.deep_view() + sentences_of(
                line@ + text@.skip(it.index()),
            ),
    {
        let ghost rest = text@.skip(it.index());
        let ghost before = lines.deep_view();
        let ghost piece = line@;
        proof {
            assert(rest[0] == c);
            assert(rest.drop_first() =~= text@.skip(it.index() + 1));
        }
        if c == '\n' {
            proof {
                line_len_after_piece(piece, rest);
                assert((piece + rest).take(piece.len() as int) =~= piece);
                assert((piece + rest).skip(piece.len() as int + 1) =~= rest.drop_first());
            }
            if !blank {
                lines.push(line);
                proof {
                    assert(lines.deep_view() =~= before.push(piece));
                    assert(before.push(piece) + sentences_of(rest.drop_first()) =~= before + (
                    seq![piece] + sentences_of(rest.drop_first())));
                }
            }
            line = String::new();
            blank = true;
            proof {
                assert(line@ + rest.drop_first() =~= rest.drop_first());
            }
        } else {
            if !is_whitespace(c) {
                blank = false;
            }
            line.push(c);
            proof {
                assert(line@ + rest.drop_first() =~= piece + rest);
                if is_blank(line@) {
                    assert(is_space(line@[piece.len() as int]));
                    assert forall|i: int| 0 <= i < piece.len() implies is_space(
                        #[trigger] piece[i],
                    ) by {
                        assert(piece[i] == line@[i]);
                    }
                }
                if is_blank(piece) && is_space(c) {
                    assert forall|i: int| 0 <= i < line@.len() implies is_space(
                        #[trigger] line@[i],
                    ) by {
                        if i < piece.len() {
                            assert(line@[i] == piece[i]);
                        }
                    }
                }
            }
        }
    }
    let ghost before = lines.deep_view();
    let ghost piece = line@;
    proof {
        assert(text@.skip(text@.len() as int) =~= Seq::<char>::empty());
        assert(piece + Seq::<char>::empty() =~= piece);
        line_len_after_piece(piece, Seq::empty());
        assert(piece.take(piece.len() as int) =~= piece);
    }
    if !blank {
        lines.push(line);
        proof {
            assert(lines.deep_view() =~= before.push(piece));
            assert(before.push(piece) =~= before + (seq![piece] + Seq::<Seq<char>>::empty()));
        }
    } else {
        proof {
            assert(before + Seq::<Seq<char>>::empty() =~= before);
        }
    }
    lines
}

} // verus!
