//! The random walk as a mathematical value: the words that generation
//! gives for a table, a limit, a seed and the picks that chance made.

use crate::table::{
    followers, has_key, is_table, learned, place, short_lines_teach_nothing, Table,
};
use crate::text::{is_word, joined, tokens, tokens_are_words, tokens_of_joined};
use vstd::prelude::*;

verus! {

/// The text of a seed, as contracts speak of it.
pub open spec fn seed_text(seed: Option<&str>) -> Option<Seq<char>> {
    match seed {
        Some(s) => Some(s@),
        None => None,
    }
}

/// Whether a seed was given: one that is there and is not the empty text.
pub open spec fn has_seed(seed: Option<Seq<char>>) -> bool {
    seed is Some && seed->0.len() > 0
}

/// The words that the output starts with. With a seed these are the tokens
/// of the seed. Without one it is the known word that `pick` selects,
/// counted around the known words, or nothing where no word is known.
pub open spec fn opening(t: Table, seed: Option<Seq<char>>, pick: usize) -> Seq<Seq<char>> {
    if has_seed(seed) {
        tokens(seed->0)
    } else if t.len() == 0 {
        Seq::empty()
    } else {
        seq![t[pick as int % t.len() as int].0]
    }
}

/// Whether the walk can go on from `words`: there is a last word, and the
/// table holds followers for it.
pub open spec fn can_step(t: Table, words: Seq<Seq<char>>) -> bool {
    words.len() > 0 && followers(t, words.last()).len() > 0
}

/// One step of the walk: the follower of the last word that `pick`
/// selects, counted around the followers, is added to `words`. Where the
/// walk cannot go on, `words` stay as they are.
pub open spec fn step(t: Table, words: Seq<Seq<char>>, pick: usize) -> Seq<Seq<char>> {
    if can_step(t, words) {
        let next = followers(t, words.last());
        words.push(next[pick as int % next.len() as int])
    } else {
        words
    }
}

/// The words after one step for each of `picks`, taken from `start`.
pub open spec fn walked(t: Table, start: Seq<Seq<char>>, picks: Seq<usize>) -> Seq<Seq<char>>
    decreases picks.len(),
{
    if picks.len() == 0 {
        start
    } else {
        step(t, walked(t, start, picks.drop_last()), picks.last())
    }
}

/// The pick at place `k`; picks that are not there count as 0.
pub open spec fn pick_at(picks: Seq<usize>, k: int) -> usize {
    if 0 <= k < picks.len() {
        picks[k]
    } else {
        0
    }
}

/// The `count` picks that stand in `picks` from place `from` on.
pub open spec fn picks_from(picks: Seq<usize>, from: int, count: nat) -> Seq<usize> {
    Seq::new(count, |k: int| pick_at(picks, from + k))
}

/// Where in `picks` the picks of the steps begin: without a seed the first
/// pick selects the opening word.
pub open spec fn steps_begin(seed: Option<Seq<char>>) -> int {
    if has_seed(seed) {
        0
    } else {
        1
    }
}

/// The words that generation gives: the opening, then one step for each of
/// `limit` picks.
pub open spec fn generated_words(
    t: Table,
    limit: nat,
    seed: Option<Seq<char>>,
    picks: Seq<usize>,
) -> Seq<Seq<char>> {
    walked(t, opening(t, seed, pick_at(picks, 0)), picks_from(picks, steps_begin(seed), limit))
}

/// The text that generation gives: its words, joined by single spaces.
pub open spec fn generated(
    t: Table,
    limit: nat,
    seed: Option<Seq<char>>,
    picks: Seq<usize>,
) -> Seq<char> {
    joined(generated_words(t, limit, seed, picks))
}

/// Where the walk cannot go on, picks change nothing.
pub proof fn walked_stays_at_end(t: Table, start: Seq<Seq<char>>, picks: Seq<usize>)
    requires
        !can_step(t, start),
    ensures
        walked(t, start, picks) == start,
    decreases picks.len(),
{
    if picks.len() > 0 {
        walked_stays_at_end(t, start, picks.drop_last());
    }
}

/// Walking by two runs of picks, one after the other, is walking by both
/// as one run.
pub proof fn walked_concat(t: Table, start: Seq<Seq<char>>, front: Seq<usize>, back: Seq<usize>)
    ensures
        walked(t, start, front + back) == walked(t, walked(t, start, front), back),
    decreases back.len(),
{
    if back.len() == 0 {
        assert(front + back =~= front);
    } else {
        assert((front + back).drop_last() =~= front + back.drop_last());
        assert((front + back).last() == back.last());
        walked_concat(t, start, front, back.drop_last());
    }
}

/// The first picks of a run, then the rest of it, are the run.
pub proof fn picks_from_split(picks: Seq<usize>, from: int, done: nat, count: nat)
    requires
        done <= count,
    ensures
        picks_from(picks, from, count) == picks_from(picks, from, done) + picks_from(
            picks,
            from + done,
            (count - done) as nat,
        ),
{
    assert(picks_from(picks, from, count) =~= picks_from(picks, from, done) + picks_from(
        picks,
        from + done,
        (count - done) as nat,
    ));
}

/// Whether each of `words` is a word.
pub open spec fn all_words(words: Seq<Seq<char>>) -> bool {
    forall|k: int| 0 <= k < words.len() ==> is_word(#[trigger] words[k])
}

/// Counting around a list that is not empty comes to a place in it.
proof fn pick_lands(pick: usize, count: nat)
    requires
        count > 0,
    ensures
        0 <= (pick as int) % (count as int) < count,
{
    assert(0 <= (pick as int) % (count as int) < count) by (nonlinear_arith)
        requires
            count > 0,
            pick >= 0,
    ;
}

/// Whether the word at place `i` of `words` has a word before it and is
/// one of the followers, in the table, of that word.
pub open spec fn follows_at(t: Table, words: Seq<Seq<char>>, i: int) -> bool {
    i >= 1 && followers(t, words[i - 1]).contains(words[i])
}

/// Whether each of `words` from place `from` on is a follower, in the
/// table, of the word before it.
pub open spec fn follows_on(t: Table, words: Seq<Seq<char>>, from: int) -> bool {
    forall|i: int| from <= i < words.len() ==> #[trigger] follows_at(t, words, i)
}

/// A step leaves the words as they are where the walk cannot go on, and
/// else adds one follower of the last word.
pub proof fn step_shape(t: Table, words: Seq<Seq<char>>, pick: usize)
    ensures
        !can_step(t, words) ==> step(t, words, pick) == words,
        can_step(t, words) ==> step(t, words, pick).len() == words.len() + 1 && step(
            t,
            words,
            pick,
        ).drop_last() == words && followers(t, words.last()).contains(step(t, words, pick).last()),
{
    if can_step(t, words) {
        let next = followers(t, words.last());
        pick_lands(pick, next.len());
        assert(step(t, words, pick).drop_last() =~= words);
    }
}

/// A walk keeps the words it started from and adds at most one word for
/// each pick.
pub proof fn walk_keeps_start(t: Table, start: Seq<Seq<char>>, picks: Seq<usize>)
    ensures
        start.is_prefix_of(walked(t, start, picks)),
        walked(t, start, picks).len() <= start.len() + picks.len(),
    decreases picks.len(),
{
    if picks.len() > 0 {
        let before = walked(t, start, picks.drop_last());
        walk_keeps_start(t, start, picks.drop_last());
        step_shape(t, before, picks.last());
        if can_step(t, before) {
            let after = step(t, before, picks.last());
            assert(after.drop_last() == before);
            assert(after.subrange(0, start.len() as int) =~= before.subrange(
                0,
                start.len() as int,
            ));
        }
    }
}

/// Each word that a walk adds is a follower, in the table, of the word
/// before it.
pub proof fn walk_follows(t: Table, start: Seq<Seq<char>>, picks: Seq<usize>)
    ensures
        follows_on(t, walked(t, start, picks), start.len() as int),
    decreases picks.len(),
{
    if picks.len() > 0 {
        let before = walked(t, start, picks.drop_last());
        walk_follows(t, start, picks.drop_last());
        walk_keeps_start(t, start, picks.drop_last());
        step_shape(t, before, picks.last());
        if can_step(t, before) {
            let after = step(t, before, picks.last());
            assert(after.drop_last() == before);
            assert forall|i: int| start.len() <= i < after.len() implies #[trigger] follows_at(
                t,
                after,
                i,
            ) by {
                if i < before.len() {
                    assert(follows_at(t, before, i));
                    assert(after[i] == before[i] && after[i - 1] == before[i - 1]);
                } else {
                    assert(after[i] == after.last() && after[i - 1] == before.last());
                }
            }
        }
    }
}

/// A walk adds fewer words than there are picks only where it has come to
/// a word without followers, or where there was no word to start from.
pub proof fn walk_ends_where_stuck(t: Table, start: Seq<Seq<char>>, picks: Seq<usize>)
    ensures
        walked(t, start, picks).len() < start.len() + picks.len() ==> !can_step(
            t,
            walked(t, start, picks),
        ),
    decreases picks.len(),
{
    if picks.len() > 0 {
        let before = walked(t, start, picks.drop_last());
        walk_ends_where_stuck(t, start, picks.drop_last());
        walk_keeps_start(t, start, picks.drop_last());
        step_shape(t, before, picks.last());
    }
}

/// A walk through a table that starts from words gives words.
pub proof fn walk_gives_words(t: Table, start: Seq<Seq<char>>, picks: Seq<usize>)
    requires
        is_table(t),
        all_words(start),
    ensures
        all_words(walked(t, start, picks)),
    decreases picks.len(),
{
    if picks.len() > 0 {
        let before = walked(t, start, picks.drop_last());
        walk_gives_words(t, start, picks.drop_last());
        if can_step(t, before) {
            let entry = place(t, before.last());
            let chosen = picks.last() as int % t[entry].1.len() as int;
            pick_lands(picks.last(), t[entry].1.len());
            assert(has_key(t, before.last()));
            assert(is_word(t[entry].1[chosen]));
        }
    }
}

/// What generation opens with are words.
pub proof fn opening_gives_words(t: Table, seed: Option<Seq<char>>, pick: usize)
    requires
        is_table(t),
    ensures
        all_words(opening(t, seed, pick)),
{
    if has_seed(seed) {
        tokens_are_words(seed->0);
    } else if t.len() > 0 {
        pick_lands(pick, t.len());
        assert(is_word(t[pick as int % t.len() as int].0));
    }
}

/// Cutting the generated text into tokens gives the generated words back.
pub proof fn generated_text_holds_its_words(
    t: Table,
    limit: nat,
    seed: Option<Seq<char>>,
    picks: Seq<usize>,
)
    requires
        is_table(t),
    ensures
        tokens(generated(t, limit, seed, picks)) == generated_words(t, limit, seed, picks),
{
    let start = opening(t, seed, pick_at(picks, 0));
    opening_gives_words(t, seed, pick_at(picks, 0));
    walk_gives_words(t, start, picks_from(picks, steps_begin(seed), limit));
    tokens_of_joined(generated_words(t, limit, seed, picks));
}

/// Without a seed, a table that knows a word gives at least one word and
/// at most one more than the limit.
pub proof fn generated_word_count(t: Table, limit: nat, seed: Option<Seq<char>>, picks: Seq<usize>)
    requires
        is_table(t),
        t.len() > 0,
        !has_seed(seed),
    ensures
        1 <= tokens(generated(t, limit, seed, picks)).len() <= limit + 1,
{
    generated_text_holds_its_words(t, limit, seed, picks);
    walk_keeps_start(
        t,
        opening(t, seed, pick_at(picks, 0)),
        picks_from(picks, steps_begin(seed), limit),
    );
    pick_lands(pick_at(picks, 0), t.len());
}

/// With a seed, the tokens of the generated text begin with the tokens of
/// the seed, as they are and in their order.
pub proof fn generated_begins_with_seed(t: Table, limit: nat, seed: Seq<char>, picks: Seq<usize>)
    requires
        is_table(t),
    ensures
        tokens(seed).is_prefix_of(tokens(generated(t, limit, Some(seed), picks))),
{
    let start = opening(t, Some(seed), pick_at(picks, 0));
    generated_text_holds_its_words(t, limit, Some(seed), picks);
    walk_keeps_start(t, start, picks_from(picks, steps_begin(Some(seed)), limit));
    if seed.len() == 0 {
        assert(tokens(seed) =~= Seq::<Seq<char>>::empty());
    }
}

/// Without a seed, a table that knows no word gives the empty text.
pub proof fn generated_from_nothing(limit: nat, seed: Option<Seq<char>>, picks: Seq<usize>)
    requires
        !has_seed(seed),
    ensures
        generated(Seq::empty(), limit, seed, picks) == Seq::<char>::empty(),
{
    let t: Table = Seq::empty();
    let start = opening(t, seed, pick_at(picks, 0));
    walked_stays_at_end(t, start, picks_from(picks, steps_begin(seed), limit));
}

/// Lines of fewer than two tokens, or no lines, leave nothing to generate
/// from: without a seed the text is empty.
pub proof fn short_lines_give_nothing(
    lines: Seq<Seq<char>>,
    limit: nat,
    seed: Option<Seq<char>>,
    picks: Seq<usize>,
)
    requires
        forall|i: int| 0 <= i < lines.len() ==> tokens(#[trigger] lines[i]).len() < 2,
        !has_seed(seed),
    ensures
        learned(lines).len() == 0,
        generated(learned(lines), limit, seed, picks) == Seq::<char>::empty(),
{
    short_lines_teach_nothing(lines);
    generated_from_nothing(limit, seed, picks);
}

/// Generation takes from `picks` only the picks that it draws: the first
/// one where there is no seed, and one for each step up to the limit. Two
/// runs of picks that agree on those give the same text.
pub proof fn only_drawn_picks_matter(
    t: Table,
    limit: nat,
    seed: Option<Seq<char>>,
    one: Seq<usize>,
    two: Seq<usize>,
)
    requires
        forall|k: int| 0 <= k < steps_begin(seed) + limit ==> pick_at(one, k) == pick_at(two, k),
    ensures
        generated(t, limit, seed, one) == generated(t, limit, seed, two),
{
    assert(picks_from(one, steps_begin(seed), limit) =~= picks_from(two, steps_begin(seed), limit));
    if has_seed(seed) {
    } else {
        assert(pick_at(one, 0) == pick_at(two, 0));
    }
}

/// How generation walks. The generated words are the opening and then at
/// most `limit` more. Each word behind the opening is a follower, in the
/// table, of the word before it. There are fewer than `limit` of them only
/// where the last word has no followers, or where there is no word at all.
pub proof fn generated_walks_the_table(
    t: Table,
    limit: nat,
    seed: Option<Seq<char>>,
    picks: Seq<usize>,
)
    ensures
        ({
            let start = opening(t, seed, pick_at(picks, 0));
            let words = generated_words(t, limit, seed, picks);
            &&& start.is_prefix_of(words)
            &&& words.len() <= start.len() + limit
            &&& follows_on(t, words, start.len() as int)
            &&& words.len() < start.len() + limit ==> !can_step(t, words)
        }),
{
    let start = opening(t, seed, pick_at(picks, 0));
    let steps = picks_from(picks, steps_begin(seed), limit);
    walk_keeps_start(t, start, steps);
    walk_follows(t, start, steps);
    walk_ends_where_stuck(t, start, steps);
}

} // verus!
