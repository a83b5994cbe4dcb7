//! The transition table as a mathematical value: which words it knows,
//! what follows each of them, and how learning changes it.

use crate::text::{is_word, tokens, tokens_are_words};
use vstd::prelude::*;

verus! {

/// A transition table: one entry for each known word, in the order in
/// which the words were first seen. An entry holds the word and, in the
/// order of learning, every word that was seen right after it.
pub type Table = Seq<(Seq<char>, Seq<Seq<char>>)>;

/// Whether `t` is a table as learning builds it: no word has two entries,
/// every entry has at least one follower, and all that it holds are words.
pub open spec fn is_table(t: Table) -> bool {
    &&& forall|i: int, j: int| 0 <= i < j < t.len() ==> (#[trigger] t[i]).0 != (#[trigger] t[j]).0
    &&& forall|i: int| 0 <= i < t.len() ==> is_word((#[trigger] t[i]).0)
    &&& forall|i: int| 0 <= i < t.len() ==> (#[trigger] t[i]).1.len() > 0
    &&& forall|i: int, k: int|
        0 <= i < t.len() && 0 <= k < t[i].1.len() ==> is_word(#[trigger] t[i].1[k])
}

/// The known words, in the order in which they were first seen.
pub open spec fn keys(t: Table) -> Seq<Seq<char>> {
    Seq::new(t.len(), |i: int| t[i].0)
}

/// Whether `word` has an entry in `t`.
pub open spec fn has_key(t: Table, word: Seq<char>) -> bool {
    exists|i: int| 0 <= i < t.len() && (#[trigger] t[i]).0 == word
}

/// The place of an entry of `word` in `t`, where it has one.
pub open spec fn place(t: Table, word: Seq<char>) -> int {
    choose|i: int| 0 <= i < t.len() && (#[trigger] t[i]).0 == word
}

/// The words seen after `word`, in the order of learning; none where
/// `word` is not known.
pub open spec fn followers(t: Table, word: Seq<char>) -> Seq<Seq<char>> {
    if has_key(t, word) {
        t[place(t, word)].1
    } else {
        Seq::empty()
    }
}

/// The table after one more transition, from `first` to `second`, has been
/// seen: `second` is added behind the followers of `first`, whose entry is
/// made at the end of the table where there was none.
pub open spec fn record(t: Table, first: Seq<char>, second: Seq<char>) -> Table {
    if has_key(t, first) {
        t.update(place(t, first), (first, t[place(t, first)].1.push(second)))
    } else {
        t.push((first, seq![second]))
    }
}

/// The transitions of one line: each of its words but the last, paired
/// with the word that comes next.
pub open spec fn transitions(words: Seq<Seq<char>>) -> Seq<(Seq<char>, Seq<char>)> {
    Seq::new(
        if words.len() >= 2 {
            (words.len() - 1) as nat
        } else {
            0
        },
        |i: int| (words[i], words[i + 1]),
    )
}

/// The transitions of all the lines, line after line. None leads from one
/// line into the next.
pub open spec fn corpus_transitions(lines: Seq<Seq<char>>) -> Seq<(Seq<char>, Seq<char>)>
    decreases lines.len(),
{
    if lines.len() == 0 {
        Seq::empty()
    } else {
        corpus_transitions(lines.drop_last()) + transitions(tokens(lines.last()))
    }
}

/// The table after the transitions `pairs` have been seen, one by one.
pub open spec fn record_all(t: Table, pairs: Seq<(Seq<char>, Seq<char>)>) -> Table
    decreases pairs.len(),
{
    if pairs.len() == 0 {
        t
    } else {
        record(record_all(t, pairs.drop_last()), pairs.last().0, pairs.last().1)
    }
}

/// The table that learning the lines builds: an empty table that has seen
/// their transitions.
pub open spec fn learned(lines: Seq<Seq<char>>) -> Table {
    record_all(Seq::empty(), corpus_transitions(lines))
}

/// The words that `pairs` show right after `word`, in their order and as
/// often as they show them.
pub open spec fn seen_after(pairs: Seq<(Seq<char>, Seq<char>)>, word: Seq<char>) -> Seq<Seq<char>>
    decreases pairs.len(),
{
    if pairs.len() == 0 {
        Seq::empty()
    } else if pairs.last().0 == word {
        seen_after(pairs.drop_last(), word).push(pairs.last().1)
    } else {
        seen_after(pairs.drop_last(), word)
    }
}

/// The known words after `pairs` have been seen: those known before, then
/// each new first word of a pair, in the order of first sight.
pub open spec fn first_seen(
    known: Seq<Seq<char>>,
    pairs: Seq<(Seq<char>, Seq<char>)>,
) -> Seq<Seq<char>>
    decreases pairs.len(),
{
    if pairs.len() == 0 {
        known
    } else if first_seen(known, pairs.drop_last()).contains(pairs.last().0) {
        first_seen(known, pairs.drop_last())
    } else {
        first_seen(known, pairs.drop_last()).push(pairs.last().0)
    }
}

/// Whether both sides of every transition in `pairs` are words.
pub open spec fn are_word_pairs(pairs: Seq<(Seq<char>, Seq<char>)>) -> bool {
    forall|k: int| 0 <= k < pairs.len() ==> is_word((#[trigger] pairs[k]).0) && is_word(pairs[k].1)
}

/// In a table no word has two entries, so the entry of a word is found at
/// the one place where the word stands.
pub proof fn place_is_unique(t: Table, i: int)
    requires
        is_table(t),
        0 <= i < t.len(),
    ensures
        has_key(t, t[i].0),
        place(t, t[i].0) == i,
        followers(t, t[i].0) == t[i].1,
{
    let j = place(t, t[i].0);
    assert(0 <= j < t.len() && t[j].0 == t[i].0);
}

/// Seeing one more transition between two words leaves a table a table.
pub proof fn record_keeps_table(t: Table, first: Seq<char>, second: Seq<char>)
    requires
        is_table(t),
        is_word(first),
        is_word(second),
    ensures
        is_table(record(t, first, second)),
{
    let r = record(t, first, second);
    if has_key(t, first) {
        let p = place(t, first);
        assert forall|i: int, k: int| 0 <= i < r.len() && 0 <= k < r[i].1.len() implies is_word(
            #[trigger] r[i].1[k],
        ) by {
            if i == p {
                if k < t[p].1.len() {
                    assert(r[i].1[k] == t[p].1[k]);
                }
            } else {
                assert(r[i].1[k] == t[i].1[k]);
            }
        }
        assert forall|i: int, j: int| 0 <= i < j < r.len() implies (#[trigger] r[i]).0 != (
        #[trigger] r[j]).0 by {
            assert(r[i].0 == t[i].0 && r[j].0 == t[j].0);
        }
    } else {
        assert forall|i: int, j: int| 0 <= i < j < r.len() implies (#[trigger] r[i]).0 != (
        #[trigger] r[j]).0 by {
            if j == t.len() {
                assert(t[i].0 != first);
            } else {
                assert(r[i].0 == t[i].0 && r[j].0 == t[j].0);
            }
        }
        assert forall|i: int, k: int| 0 <= i < r.len() && 0 <= k < r[i].1.len() implies is_word(
            #[trigger] r[i].1[k],
        ) by {
            if i < t.len() {
                assert(r[i].1[k] == t[i].1[k]);
            }
        }
    }
}

/// A word has an entry just where it stands among the known words.
pub proof fn has_key_is_in_keys(t: Table, word: Seq<char>)
    ensures
        has_key(t, word) <==> keys(t).contains(word),
{
    if has_key(t, word) {
        let i = place(t, word);
        assert(keys(t)[i] == word);
    }
    if keys(t).contains(word) {
        let i = choose|i: int| 0 <= i < keys(t).len() && keys(t)[i] == word;
        assert(t[i].0 == word);
    }
}

/// What one more transition changes: its second word is added behind the
/// followers of its first word, which becomes known if it was not. The
/// followers of every other word stay as they were.
pub proof fn record_adds_follower(t: Table, first: Seq<char>, second: Seq<char>, word: Seq<char>)
    requires
        is_table(t),
        is_word(first),
        is_word(second),
    ensures
        followers(record(t, first, second), word) == if word == first {
            followers(t, word).push(second)
        } else {
            followers(t, word)
        },
        keys(record(t, first, second)) == if has_key(t, first) {
            keys(t)
        } else {
            keys(t).push(first)
        },
{
    let r = record(t, first, second);
    record_keeps_table(t, first, second);
    if has_key(t, first) {
        let p = place(t, first);
        assert(keys(r) =~= keys(t));
        if word == first {
            assert(r[p].0 == word);
            place_is_unique(r, p);
        } else if has_key(t, word) {
            let q = place(t, word);
            assert(r[q] == t[q]);
            place_is_unique(r, q);
        } else {
            if has_key(r, word) {
                let q = place(r, word);
                assert(t[q].0 == word);
            }
        }
    } else {
        assert(keys(r) =~= keys(t).push(first));
        if word == first {
            assert(r[t.len() as int].0 == word);
            place_is_unique(r, t.len() as int);
            assert(followers(t, word).push(second) =~= seq![second]);
        } else if has_key(t, word) {
            let q = place(t, word);
            assert(r[q] == t[q]);
            place_is_unique(r, q);
        } else {
            if has_key(r, word) {
                let q = place(r, word);
                assert(q < t.len());
                assert(t[q].0 == word);
            }
        }
    }
}

/// What seeing transitions changes: each word gets, behind the followers
/// it had, the words that the transitions show after it; and the words
/// that become known stand behind those known before, in the order of
/// first sight.
pub proof fn record_all_adds_followers(
    t: Table,
    pairs: Seq<(Seq<char>, Seq<char>)>,
    word: Seq<char>,
)
    requires
        is_table(t),
        are_word_pairs(pairs),
    ensures
        followers(record_all(t, pairs), word) == followers(t, word) + seen_after(pairs, word),
        keys(record_all(t, pairs)) == first_seen(keys(t), pairs),
    decreases pairs.len(),
{
    if pairs.len() == 0 {
        assert(followers(t, word) + seen_after(pairs, word) =~= followers(t, word));
    } else {
        let front = pairs.drop_last();
        assert forall|k: int| 0 <= k < front.len() implies is_word((#[trigger] front[k]).0)
            && is_word(front[k].1) by {
            assert(front[k] == pairs[k]);
        }
        let before = record_all(t, front);
        record_all_adds_followers(t, front, word);
        record_all_keeps_table(t, front);
        record_adds_follower(before, pairs.last().0, pairs.last().1, word);
        has_key_is_in_keys(before, pairs.last().0);
        if pairs.last().0 == word {
            assert((followers(t, word) + seen_after(front, word)).push(pairs.last().1) =~= followers(
                t,
                word,
            ) + seen_after(pairs, word));
        }
    }
}

/// Seeing two runs of transitions one after the other is seeing them as
/// one run.
pub proof fn record_all_concat(
    t: Table,
    front: Seq<(Seq<char>, Seq<char>)>,
    back: Seq<(Seq<char>, Seq<char>)>,
)
    ensures
        record_all(t, front + back) == record_all(record_all(t, front), back),
    decreases back.len(),
{
    if back.len() == 0 {
        assert(front + back =~= front);
    } else {
        assert((front + back).drop_last() =~= front + back.drop_last());
        assert((front + back).last() == back.last());
        record_all_concat(t, front, back.drop_last());
    }
}

/// Seeing transitions between words leaves a table a table.
pub proof fn record_all_keeps_table(t: Table, pairs: Seq<(Seq<char>, Seq<char>)>)
    requires
        is_table(t),
        are_word_pairs(pairs),
    ensures
        is_table(record_all(t, pairs)),
    decreases pairs.len(),
{
    if pairs.len() > 0 {
        let front = pairs.drop_last();
        assert forall|k: int| 0 <= k < front.len() implies is_word((#[trigger] front[k]).0)
            && is_word(front[k].1) by {
            assert(front[k] == pairs[k]);
        }
        record_all_keeps_table(t, front);
        record_keeps_table(record_all(t, front), pairs.last().0, pairs.last().1);
    }
}

/// The transitions of a line of text lead from words to words.
pub proof fn transitions_are_word_pairs(line: Seq<char>)
    ensures
        are_word_pairs(transitions(tokens(line))),
{
    tokens_are_words(line);
}

/// The transitions of lines of text lead from words to words.
pub proof fn corpus_transitions_are_word_pairs(lines: Seq<Seq<char>>)
    ensures
        are_word_pairs(corpus_transitions(lines)),
    decreases lines.len(),
{
    if lines.len() > 0 {
        corpus_transitions_are_word_pairs(lines.drop_last());
        transitions_are_word_pairs(lines.last());
    }
}

/// Learning lines of text builds a table: in particular, every word that
/// it knows has at least one follower.
pub proof fn learned_is_table(lines: Seq<Seq<char>>)
    ensures
        is_table(learned(lines)),
{
    corpus_transitions_are_word_pairs(lines);
    record_all_keeps_table(Seq::empty(), corpus_transitions(lines));
}

/// What learning builds: the followers of a word are the words that stand
/// right after it in the lines, in their order and as often as they stand
/// there; and the known words are the words that have a follower, in the
/// order of first sight.
pub proof fn learned_followers(lines: Seq<Seq<char>>, word: Seq<char>)
    ensures
        followers(learned(lines), word) == seen_after(corpus_transitions(lines), word),
        keys(learned(lines)) == first_seen(Seq::empty(), corpus_transitions(lines)),
{
    let nothing: Table = Seq::empty();
    corpus_transitions_are_word_pairs(lines);
    record_all_adds_followers(nothing, corpus_transitions(lines), word);
    assert(keys(nothing) =~= Seq::<Seq<char>>::empty());
    assert(followers(nothing, word) + seen_after(corpus_transitions(lines), word) =~= seen_after(
        corpus_transitions(lines),
        word,
    ));
}

/// Lines of fewer than two tokens, or no lines, teach nothing: the table
/// knows no word.
pub proof fn short_lines_teach_nothing(lines: Seq<Seq<char>>)
    requires
        forall|i: int| 0 <= i < lines.len() ==> tokens(#[trigger] lines[i]).len() < 2,
    ensures
        learned(lines) == Seq::<(Seq<char>, Seq<Seq<char>>)>::empty(),
    decreases lines.len(),
{
    if lines.len() > 0 {
        let front = lines.drop_last();
        assert forall|i: int| 0 <= i < front.len() implies tokens(#[trigger] front[i]).len()
            < 2 by {
            assert(front[i] == lines[i]);
        }
        short_lines_teach_nothing(front);
        assert(tokens(lines.last()).len() < 2);
        assert(corpus_transitions(lines) =~= corpus_transitions(front));
    }
}

} // verus!
