//! The chain itself: the table held in memory, the training that fills it
//! and the generation that walks it.

use crate::corpus::{sentences, sentences_of};
use crate::source::RandomSource;
use crate::table::{
    are_word_pairs, corpus_transitions, followers, has_key, is_table, keys, learned,
    learned_followers, learned_is_table, place, place_is_unique, record, record_all,
    record_all_concat, record_all_keeps_table, seen_after, transitions, transitions_are_word_pairs,
    Table,
};
use crate::text::{is_word, join, tokenize};
use crate::walk::{
    can_step, generated, generated_words, has_seed, opening, pick_at, picks_from,
    picks_from_split, seed_text, step, steps_begin, walked, walked_concat, walked_stays_at_end,
};
use vstd::prelude::*;

verus! {

/// One known word with the words seen after it.
#[derive(Debug)]
struct Entry {
    word: String,
    followers: Vec<String>,
}

/// A first-order Markov model of text: for each known word, the words that
/// were seen right after it, as often as they were seen.
#[derive(Debug)]
pub struct Chain {
    entries: Vec<Entry>,
}

/// The table that `entries` hold.
spec fn table_of(entries: Seq<Entry>) -> Table {
    Seq::new(entries.len(), |i: int| (entries[i].word@, entries[i].followers.deep_view()))
}

impl View for Chain {
    type V = Table;

    closed spec fn view(&self) -> Table {
        table_of(self.entries@)
    }
}

/// A copy of `words`.
fn copy_words(words: &Vec<String>) -> (copy: Vec<String>)
    ensures
        copy.deep_view() == words.deep_view(),
{
    let mut copy: Vec<String> = Vec::new();
    let mut i: usize = 0;
    while i < words.len()
        invariant
            i <= words.len(),
            copy.deep_view() == words.deep_view().take(i as int),
        decreases words.len() - i,
    {
        let ghost before = copy.deep_view();
        copy.push(words[i].clone());
        proof {
            assert(copy.deep_view() =~= before.push(words[i as int]@));
            assert(words.deep_view().take(i + 1) =~= before.push(words[i as int]@));
        }
        i += 1;
    }
    proof {
        assert(words.deep_view().take(words.len() as int) =~= words.deep_view());
    }
    copy
}

/// Where the entry of `word` stands among `entries`, if it has one.
fn find(entries: &Vec<Entry>, word: &String) -> (found: Option<usize>)
    requires
        is_table(table_of(entries@)),
    ensures
        match found {
            Some(i) => i < entries.len() && place(table_of(entries@), word@) == i && has_key(
                table_of(entries@),
                word@,
            ),
            None => !has_key(table_of(entries@), word@),
        },
{
    let ghost t = table_of(entries@);
    let mut i: usize = 0;
    while i < entries.len()
        invariant
            i <= entries.len(),
            t == table_of(entries@),
            is_table(t),
            forall|k: int| 0 <= k < i ==> (#[trigger] t[k]).0 != word@,
        decreases entries.len() - i,
    {
        if entries[i].word == *word {
            proof {
                assert(t[i as int].0 == word@);
                place_is_unique(t, i as int);
            }
            return Some(i);
        }
        i += 1;
    }
    None
}

/// Records that `second` was seen right after `first`.
fn observe(entries: &mut Vec<Entry>, first: String, second: String)
    requires
        is_table(table_of(old(entries)@)),
    ensures
        table_of(final(entries)@) == record(table_of(old(entries)@), first@, second@),
{
    let ghost before = table_of(entries@);
    match find(entries, &first) {
        Some(i) => {
            let ghost seen = entries[i as int].followers.deep_view();
            entries[i].followers.push(second);
            proof {
                assert(entries[i as int].followers.deep_view() =~= seen.push(second@));
                assert(table_of(entries@) =~= record(before, first@, second@));
            }
        },
        None => {
            let mut followers: Vec<String> = Vec::new();
            followers.push(second);
            proof {
                assert(followers.deep_view() =~= seq![second@]);
            }
            entries.push(Entry { word: first, followers });
            proof {
                assert(table_of(entries@) =~= record(before, first@, second@));
            }
        },
    }
}

impl Chain {
    #[verifier::type_invariant]
    spec fn well_formed(&self) -> bool {
        is_table(self@)
    }

    /// A chain that knows no word.
    pub fn new() -> (chain: Chain)
        ensures
            chain@ == Seq::<(Seq<char>, Seq<Seq<char>>)>::empty(),
    {
        let chain = Chain { entries: Vec::new() };
        assert(chain@ =~= Seq::<(Seq<char>, Seq<Seq<char>>)>::empty());
        chain
    }

    /// A chain that has learned the sentences of `text`: its lines that are
    /// not blank.
    pub fn from_text(text: &str) -> (chain: Chain)
        ensures
            chain@ == learned(sentences_of(text@)),
            is_table(chain@),
    {
        let lines = sentences(text);
        let mut borrowed: Vec<&str> = Vec::new();
        let mut i: usize = 0;
        while i < lines.len()
            invariant
                i <= lines.len(),
                borrowed.deep_view() == lines.deep_view().take(i as int),
            decreases lines.len() - i,
        {
            let ghost before = borrowed.deep_view();
            borrowed.push(lines[i].as_str());
            proof {
                assert(borrowed.deep_view() =~= before.push(lines[i as int]@));
                assert(lines.deep_view().take(i + 1) =~= before.push(lines[i as int]@));
            }
            i += 1;
        }
        proof {
            assert(lines.deep_view().take(lines.len() as int) =~= lines.deep_view());
        }
        let mut chain = Chain::new();
        chain.train(borrowed);
        chain
    }

    /// Learns `sentences` afresh: what the chain knew before is dropped.
    /// Within each line, every word but the last gets the word that comes
    /// next as one more follower; no transition leads from one line into
    /// the next.
    pub fn train(&mut self, sentences: Vec<&str>)
        ensures
            final(self)@ == learned(sentences.deep_view()),
            is_table(final(self)@),
            forall|word: Seq<char>|
                #[trigger] followers(final(self)@, word) == seen_after(
                    corpus_transitions(sentences.deep_view()),
                    word,
                ),
    {
        let ghost lines = sentences.deep_view();
        let mut entries: Vec<Entry> = Vec::new();
        proof {
            assert(table_of(entries@) =~= Seq::<(Seq<char>, Seq<Seq<char>>)>::empty());
            assert(lines.take(0) =~= Seq::<Seq<char>>::empty());
        }
        let mut i: usize = 0;
        while i < sentences.len()
            invariant
                i <= sentences.len(),
                lines == sentences.deep_view(),
                table_of(entries@) == learned(lines.take(i as int)),
            decreases sentences.len() - i,
        {
            let ghost done = lines.take(i as int);
            let ghost so_far = table_of(entries@);
            let words = tokenize(sentences[i]);
            let ghost pairs = transitions(words.deep_view());
            proof {
                assert(lines[i as int] == sentences[i as int]@);
                learned_is_table(done);
                transitions_are_word_pairs(lines[i as int]);
                assert(pairs.take(0) =~= Seq::empty());
            }
            let mut j: usize = 1;
            while j < words.len()
                invariant
                    1 <= j,
                    j - 1 <= pairs.len(),
                    pairs == transitions(words.deep_view()),
                    are_word_pairs(pairs),
                    is_table(so_far),
                    table_of(entries@) == record_all(so_far, pairs.take(j - 1)),
                decreases words.len() - j,
            {
                let ghost seen = pairs.take(j - 1);
                proof {
                    assert forall|k: int| 0 <= k < seen.len() implies is_word(
                        (#[trigger] seen[k]).0,
                    ) && is_word(seen[k].1) by {
                        assert(seen[k] == pairs[k]);
                    }
                    record_all_keeps_table(so_far, seen);
                    assert(pairs.take(j as int).drop_last() =~= seen);
                    assert(pairs.take(j as int).last() == (words[j - 1]@, words[j as int]@));
                }
                observe(&mut entries, words[j - 1].clone(), words[j].clone());
                j += 1;
            }
            proof {
                assert(pairs.take(j - 1) =~= pairs);
                let next = lines.take(i + 1);
                assert(next.drop_last() =~= done);
                assert(next.last() == lines[i as int]);
                record_all_concat(Seq::empty(), corpus_transitions(done), pairs);
            }
            i += 1;
        }
        proof {
            assert(lines.take(sentences.len() as int) =~= lines);
            learned_is_table(lines);
            assert forall|word: Seq<char>| #[trigger]
                followers(table_of(entries@), word) == seen_after(
                    corpus_transitions(lines),
                    word,
                ) by {
                learned_followers(lines, word);
            }
        }
        *self = Chain { entries };
    }

    /// The words that the chain knows, in the order in which it first saw
    /// them.
    pub fn known_words(&self) -> (words: Vec<String>)
        ensures
            is_table(self@),
            words.deep_view() == keys(self@),
    {
        proof {
            use_type_invariant(self);
        }
        let mut words: Vec<String> = Vec::new();
        let mut i: usize = 0;
        while i < self.entries.len()
            invariant
                i <= self.entries.len(),
                words.deep_view() == keys(self@).take(i as int),
            decreases self.entries.len() - i,
        {
            let ghost before = words.deep_view();
            words.push(self.entries[i].word.clone());
            proof {
                assert(words.deep_view() =~= before.push(self@[i as int].0));
                assert(keys(self@).take(i + 1) =~= before.push(self@[i as int].0));
            }
            i += 1;
        }
        proof {
            assert(keys(self@).take(self.entries.len() as int) =~= keys(self@));
        }
        words
    }

    /// The words that were seen after `word`, in the order of learning, each
    /// as often as it was seen; none where `word` is not known.
    pub fn followers_of(&self, word: &str) -> (list: Vec<String>)
        ensures
            is_table(self@),
            list.deep_view() == followers(self@, word@),
    {
        proof {
            use_type_invariant(self);
        }
        let word = word.to_owned();
        match find(&self.entries, &word) {
            Some(e) => copy_words(&self.entries[e].followers),
            None => {
                let list: Vec<String> = Vec::new();
                proof {
                    assert(list.deep_view() =~= Seq::<Seq<char>>::empty());
                }
                list
            },
        }
    }

    /// Whether `seed` holds a seed: one that is there and not empty.
    fn seeded(seed: Option<&str>) -> (given: bool)
        ensures
            given == has_seed(seed_text(seed)),
    {
        match seed {
            Some(s) => !s.is_empty(),
            None => false,
        }
    }

    /// The words that the output starts with.
    fn open(&self, seed: Option<&str>, pick: usize) -> (words: Vec<String>)
        ensures
            words.deep_view() == opening(self@, seed_text(seed), pick),
    {
        match seed {
            Some(s) => {
                if !s.is_empty() {
                    return tokenize(s);
                }
            },
            None => {},
        }
        let mut words: Vec<String> = Vec::new();
        if self.entries.len() > 0 {
            words.push(self.entries[pick % self.entries.len()].word.clone());
            proof {
                assert(words.deep_view() =~= opening(self@, seed_text(seed), pick));
            }
        } else {
            proof {
                assert(words.deep_view() =~= opening(self@, seed_text(seed), pick));
            }
        }
        words
    }

    /// The entry that holds the words from which the walk goes on after
    /// `words`, if it can go on.
    fn choices(&self, words: &Vec<String>) -> (found: Option<usize>)
        ensures
            match found {
                Some(e) => e < self.entries.len() && can_step(self@, words.deep_view())
                    && self.entries[e as int].followers.len() > 0
                    && self.entries[e as int].followers.deep_view() == followers(
                    self@,
                    words.deep_view().last(),
                ),
                None => !can_step(self@, words.deep_view()),
            },
    {
        proof {
            use_type_invariant(self);
        }
        if words.len() == 0 {
            return None;
        }
        let last = &words[words.len() - 1];
        proof {
            assert(words.deep_view().last() == last@);
        }
        match find(&self.entries, last) {
            Some(e) => {
                proof {
                    assert(self@[e as int].1.len() > 0);
                }
                Some(e)
            },
            None => None,
        }
    }

    /// Takes one step of the walk, from the entry that `choices` found.
    fn advance(&self, words: &mut Vec<String>, entry: usize, pick: usize)
        requires
            entry < self.entries.len(),
            can_step(self@, old(words).deep_view()),
            self.entries[entry as int].followers.len() > 0,
            self.entries[entry as int].followers.deep_view() == followers(
                self@,
                old(words).deep_view().last(),
            ),
        ensures
            final(words).deep_view() == step(self@, old(words).deep_view(), pick),
    {
        let next = &self.entries[entry].followers;
        let ghost before = words.deep_view();
        words.push(next[pick % next.len()].clone());
        proof {
            assert(words.deep_view() =~= before.push(
                next.deep_view()[pick as int % next.len() as int],
            ));
        }
    }

    /// Generates text from picks that are given: the opening, then up to
    /// `word_limit` steps, of which each takes the next of `picks`. Without
    /// a seed the first pick selects the opening word. A pick selects by
    /// counting around what there is to select from, and picks that are not
    /// there count as 0.
    pub fn generate_from_picks(
        &self,
        word_limit: usize,
        custom_sentence: Option<&str>,
        picks: &Vec<usize>,
    ) -> (text: String)
        ensures
            is_table(self@),
            text@ == generated(self@, word_limit as nat, seed_text(custom_sentence), picks@),
    {
        proof {
            use_type_invariant(self);
        }
        let ghost t = self@;
        let ghost seed = seed_text(custom_sentence);
        let from: usize = if Self::seeded(custom_sentence) {
            0
        } else {
            1
        };
        let first: usize = if picks.len() > 0 {
            picks[0]
        } else {
            0
        };
        let mut words = self.open(custom_sentence, first);
        let ghost start = words.deep_view();
        let mut going = true;
        let mut k: usize = 0;
        while going && k < word_limit
            invariant
                k <= word_limit,
                t == self@,
                from == steps_begin(seed),
                words.deep_view() == walked(t, start, picks_from(picks@, from as int, k as nat)),
                !going ==> !can_step(t, words.deep_view()),
            decreases (if going { 1int } else { 0int }), word_limit - k,
        {
            match self.choices(&words) {
                Some(entry) => {
                    let pick: usize = if from <= picks.len() && k < picks.len() - from {
                        picks[from + k]
                    } else {
                        0
                    };
                    proof {
                        let more = picks_from(picks@, from as int, (k + 1) as nat);
                        assert(more.drop_last() =~= picks_from(picks@, from as int, k as nat));
                        assert(more.last() == pick);
                    }
                    self.advance(&mut words, entry, pick);
                    k += 1;
                },
                None => {
                    going = false;
                },
            }
        }
        proof {
            let done = picks_from(picks@, from as int, k as nat);
            let rest = picks_from(picks@, from + k, (word_limit - k) as nat);
            picks_from_split(picks@, from as int, k as nat, word_limit as nat);
            walked_concat(t, start, done, rest);
            if going {
                assert(rest =~= Seq::<usize>::empty());
            } else {
                walked_stays_at_end(t, words.deep_view(), rest);
            }
        }
        join(&words)
    }

    /// Generates text by a random walk: the opening, then up to
    /// `word_limit` steps. Without a seed the opening is one known word,
    /// each with the same chance; each step takes one of the followers of
    /// the last word, each place among them with the same chance. The walk
    /// ends before `word_limit` steps only at a word without followers.
    /// The text is one that `generate_from_picks` gives for some picks.
    pub fn generate(
        &self,
        word_limit: usize,
        custom_sentence: Option<&str>,
        rng: &mut RandomSource,
    ) -> (text: String)
        ensures
            is_table(self@),
            exists|picks: Seq<usize>|
                text@ == generated(self@, word_limit as nat, seed_text(custom_sentence), picks),
    {
        proof {
            use_type_invariant(self);
        }
        let ghost t = self@;
        let ghost seed = seed_text(custom_sentence);
        let seeded = Self::seeded(custom_sentence);
        let first: usize = if !seeded && self.entries.len() > 0 {
            rng.below(self.entries.len())
        } else {
            0
        };
        let mut words = self.open(custom_sentence, first);
        let ghost start = words.deep_view();
        let ghost mut drawn: Seq<usize> = Seq::empty();
        let mut going = true;
        let mut k: usize = 0;
        while going && k < word_limit
            invariant
                k <= word_limit,
                t == self@,
                drawn.len() == k,
                words.deep_view() == walked(t, start, drawn),
                !going ==> !can_step(t, words.deep_view()),
            decreases (if going { 1int } else { 0int }), word_limit - k,
        {
            match self.choices(&words) {
                Some(entry) => {
                    let pick = rng.below(self.entries[entry].followers.len());
                    proof {
                        assert(drawn.push(pick).drop_last() =~= drawn);
                        drawn = drawn.push(pick);
                    }
                    self.advance(&mut words, entry, pick);
                    k += 1;
                },
                None => {
                    going = false;
                },
            }
        }
        let ghost picks = if seeded {
            drawn
        } else {
            seq![first] + drawn
        };
        proof {
            let from = steps_begin(seed);
            let rest = picks_from(picks, from + k, (word_limit - k) as nat);
            assert(picks_from(picks, from, k as nat) =~= drawn);
            picks_from_split(picks, from, k as nat, word_limit as nat);
            walked_concat(t, start, drawn, rest);
            if going {
                assert(rest =~= Seq::<usize>::empty());
            } else {
                walked_stays_at_end(t, words.deep_view(), rest);
            }
            assert(start == opening(t, seed, pick_at(picks, 0)));
            assert(words.deep_view() == generated_words(
                t,
                word_limit as nat,
                seed,
                picks,
            ));
        }
        let text = join(&words);
        assert(text@ == generated(t, word_limit as nat, seed, picks));
        text
    }
}

impl Clone for Chain {
    fn clone(&self) -> (copy: Chain)
        ensures
            copy@ == self@,
    {
        proof {
            use_type_invariant(self);
        }
        let mut entries: Vec<Entry> = Vec::new();
        let mut i: usize = 0;
        while i < self.entries.len()
            invariant
                i <= self.entries.len(),
                table_of(entries@) == self@.take(i as int),
            decreases self.entries.len() - i,
        {
            let ghost before = table_of(entries@);
            let entry = &self.entries[i];
            entries.push(Entry { word: entry.word.clone(), followers: copy_words(&entry.followers) });
            proof {
                assert(table_of(entries@) =~= before.push(self@[i as int]));
                assert(self@.take(i + 1) =~= before.push(self@[i as int]));
            }
            i += 1;
        }
        proof {
            assert(self@.take(self.entries.len() as int) =~= self@);
        }
        Chain { entries }
    }
}

} // verus!
