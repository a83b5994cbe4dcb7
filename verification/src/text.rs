//! Words and whitespace: how a line of text is cut into tokens and how
//! tokens are put back together.

use vstd::prelude::*;
use vstd::string::StringExecFns;

verus! {

/// Whether `c` is a white space character: one of the code points that
/// Unicode marks as `White_Space`.
pub open spec fn is_space(c: char) -> bool {
    let n = c as u32;
    ||| 0x09 <= n <= 0x0D
    ||| n == 0x20
    ||| n == 0x85
    ||| n == 0xA0
    ||| n == 0x1680
    ||| 0x2000 <= n <= 0x200A
    ||| n == 0x2028
    ||| n == 0x2029
    ||| n == 0x202F
    ||| n == 0x205F
    ||| n == 0x3000
}

/// Tells whether `c` is a white space character.
pub fn is_whitespace(c: char) -> (b: bool)
    ensures
        b == is_space(c),
{
    let n: u32 = c as u32;
    (0x09 <= n && n <= 0x0D) || n == 0x20 || n == 0x85 || n == 0xA0 || n == 0x1680 || (0x2000 <= n
        && n <= 0x200A) || n == 0x2028 || n == 0x2029 || n == 0x202F || n == 0x205F || n == 0x3000
}

/// Whether `w` is a word: at least one character, none of them white space.
pub open spec fn is_word(w: Seq<char>) -> bool {
    &&& w.len() > 0
    &&& forall|i: int| 0 <= i < w.len() ==> !is_space(#[trigger] w[i])
}

/// How many characters stand at the front of `s` before its first white
/// space character, or before its end.
pub open spec fn word_len(s: Seq<char>) -> nat
    decreases s.len(),
{
    if s.len() == 0 || is_space(s[0]) {
        0
    } else {
        1 + word_len(s.drop_first())
    }
}

/// The tokens of `s`: its maximal runs of characters that are not white
/// space, from left to right.
pub open spec fn tokens(s: Seq<char>) -> Seq<Seq<char>>
    decreases s.len(),
    via tokens_decreases
{
    if s.len() == 0 {
        Seq::empty()
    } else if is_space(s[0]) {
        tokens(s.drop_first())
    } else {
        seq![s.take(word_len(s) as int)] + tokens(s.skip(word_len(s) as int))
    }
}

#[via_fn]
proof fn tokens_decreases(s: Seq<char>) {
    word_len_marks_run(s);
}

/// The words of `words` written one after another, with one space
/// between each two neighbours.
pub open spec fn joined(words: Seq<Seq<char>>) -> Seq<char>
    decreases words.len(),
{
    if words.len() == 0 {
        Seq::empty()
    } else if words.len() == 1 {
        words[0]
    } else {
        joined(words.drop_last()) + seq![' '] + words.last()
    }
}

/// A run of word characters that ends at a white space character, or at
/// the end of the text, is the first token of the text.
pub proof fn tokens_after_word(w: Seq<char>, rest: Seq<char>)
    requires
        is_word(w),
        rest.len() == 0 || is_space(rest[0]),
    ensures
        tokens(w + rest) == seq![w] + tokens(rest),
{
    let s = w + rest;
    word_len_after_run(w, rest);
    assert(s[0] == w[0]);
    assert(s.take(w.len() as int) =~= w);
    assert(s.skip(w.len() as int) =~= rest);
}

proof fn word_len_after_run(w: Seq<char>, rest: Seq<char>)
    requires
        forall|i: int| 0 <= i < w.len() ==> !is_space(#[trigger] w[i]),
        rest.len() == 0 || is_space(rest[0]),
    ensures
        word_len(w + rest) == w.len(),
    decreases w.len(),
{
    let s = w + rest;
    if w.len() == 0 {
        assert(s =~= rest);
    } else {
        assert(s[0] == w[0]);
        assert(s.drop_first() =~= w.drop_first() + rest);
        assert forall|i: int| 0 <= i < w.drop_first().len() implies !is_space(
            #[trigger] w.drop_first()[i],
        ) by {
            assert(w.drop_first()[i] == w[i + 1]);
        }
        word_len_after_run(w.drop_first(), rest);
    }
}

/// The leading run holds no white space, and what follows it, if anything,
/// starts with white space.
pub proof fn word_len_marks_run(s: Seq<char>)
    ensures
        word_len(s) <= s.len(),
        forall|i: int| 0 <= i < word_len(s) ==> !is_space(#[trigger] s[i]),
        word_len(s) < s.len() ==> is_space(s[word_len(s) as int]),
    decreases s.len(),
{
    if s.len() > 0 && !is_space(s[0]) {
        let tail = s.drop_first();
        word_len_marks_run(tail);
        assert forall|i: int| 0 <= i < word_len(s) implies !is_space(#[trigger] s[i]) by {
            if i > 0 {
                assert(s[i] == tail[i - 1]);
            }
        }
        if word_len(s) < s.len() {
            assert(s[word_len(s) as int] == tail[word_len(tail) as int]);
        }
    }
}

/// Every token is a word.
pub proof fn tokens_are_words(s: Seq<char>)
    ensures
        forall|k: int| 0 <= k < tokens(s).len() ==> is_word(#[trigger] tokens(s)[k]),
    decreases s.len(),
{
    if s.len() == 0 {
        assert(tokens(s).len() == 0);
    } else if is_space(s[0]) {
        tokens_are_words(s.drop_first());
        assert(tokens(s) == tokens(s.drop_first()));
    } else {
        let n = word_len(s) as int;
        word_len_marks_run(s);
        tokens_are_words(s.skip(n));
        assert(is_word(s.take(n)));
        assert(tokens(s) == seq![s.take(n)] + tokens(s.skip(n)));
        let rest = tokens(s.skip(n));
        assert forall|k: int| 0 <= k < tokens(s).len() implies is_word(#[trigger] tokens(s)[k]) by {
            if k > 0 {
                assert(tokens(s)[k] == rest[k - 1]);
            }
        }
    }
}

/// A white space character between two texts keeps their tokens apart: the
/// tokens of the whole are those of the left part, then those of the right.
pub proof fn tokens_across_space(left: Seq<char>, c: char, right: Seq<char>)
    requires
        is_space(c),
    ensures
        tokens(left + seq![c] + right) == tokens(left) + tokens(right),
    decreases left.len(),
{
    let s = left + seq![c] + right;
    if left.len() == 0 {
        assert(s[0] == c);
        assert(s.drop_first() =~= right);
        assert(tokens(left) + tokens(right) =~= tokens(right));
    } else if is_space(left[0]) {
        assert(s[0] == left[0]);
        assert(s.drop_first() =~= left.drop_first() + seq![c] + right);
        tokens_across_space(left.drop_first(), c, right);
    } else {
        let n = word_len(left) as int;
        word_len_marks_run(left);
        let w = left.take(n);
        let rest = left.skip(n);
        let tail = rest + seq![c] + right;
        assert(s =~= w + tail);
        assert(tail[0] == if rest.len() > 0 { rest[0] } else { c });
        tokens_after_word(w, tail);
        tokens_across_space(rest, c, right);
        assert(seq![w] + (tokens(rest) + tokens(right)) =~= (seq![w] + tokens(rest)) + tokens(
            right,
        ));
    }
}

/// Cutting up what `joined` wrote gives the words back, where each of them
/// is a word.
pub proof fn tokens_of_joined(words: Seq<Seq<char>>)
    requires
        forall|k: int| 0 <= k < words.len() ==> is_word(#[trigger] words[k]),
    ensures
        tokens(joined(words)) == words,
    decreases words.len(),
{
    if words.len() == 0 {
        assert(tokens(joined(words)) =~= words);
    } else {
        let last = words.last();
        assert(is_word(last));
        tokens_after_word(last, Seq::empty());
        assert(last + Seq::<char>::empty() =~= last);
        assert(tokens(last) =~= seq![last]);
        if words.len() == 1 {
            assert(words =~= seq![last]);
        } else {
            let front = words.drop_last();
            assert forall|k: int| 0 <= k < front.len() implies is_word(#[trigger] front[k]) by {
                assert(front[k] == words[k]);
            }
            tokens_of_joined(front);
            tokens_across_space(joined(front), ' ', last);
            assert(front + seq![last] =~= words);
        }
    }
}

/// `String::push` of the standard library, taken on trust: it appends the
/// character to the end of the string and changes nothing else.
pub assume_specification[ String::push ](s: &mut String, ch: char)
    ensures
        final(s)@ == old(s)@.push(ch),
;

/// Cuts `line` into its tokens.
pub fn tokenize(line: &str) -> (words: Vec<String>)
    ensures
        words.deep_view() == tokens(line@),
{
    let mut words: Vec<String> = Vec::new();
    let mut word = String::new();
    proof {
        assert(words.deep_view() =~= Seq::<Seq<char>>::empty());
        assert(word@ + line@.skip(0) =~= line@);
    }
    for c in it: line.chars()
        invariant
            it.seq() == line@,
            forall|i: int| 0 <= i < word@.len() ==> !is_space(#[trigger] word@[i]),
            tokens(line@) == words.deep_view() + tokens(word@ + line@.skip(it.index())),
    {
        let ghost rest = line@.skip(it.index());
        let ghost before = words.deep_view();
        proof {
            assert(rest[0] == c);
            assert(rest.drop_first() =~= line@.skip(it.index() + 1));
        }
        if is_whitespace(c) {
            if !word.as_str().is_empty() {
                proof {
                    tokens_after_word(word@, rest);
                }
                let ghost w = word@;
                words.push(word);
                word = String::new();
                proof {
                    assert(words.deep_view() =~= before.push(w));
                    assert(word@ + rest.drop_first() =~= rest.drop_first());
                    assert(before.push(w) + tokens(rest.drop_first()) =~= before + (seq![w]
                        + tokens(rest)));
                }
            } else {
                proof {
                    assert(word@ + rest =~= rest);
                    assert(word@ + rest.drop_first() =~= rest.drop_first());
                }
            }
        } else {
            let ghost w = word@;
            word.push(c);
            proof {
                assert(word@ + rest.drop_first() =~= w + rest);
            }
        }
    }
    let ghost before = words.deep_view();
    proof {
        assert(line@.skip(line@.len() as int) =~= Seq::<char>::empty());
        assert(word@ + Seq::<char>::empty() =~= word@);
    }
    if !word.as_str().is_empty() {
        proof {
            tokens_after_word(word@, Seq::<char>::empty());
        }
        let ghost w = word@;
        words.push(word);
        proof {
            assert(words.deep_view() =~= before.push(w));
            assert(before.push(w) =~= before + (seq![w] + tokens(Seq::<char>::empty())));
        }
    } else {
        proof {
            assert(before + tokens(Seq::<char>::empty()) =~= before);
        }
    }
    words
}

/// Writes the words one after another, separated by single spaces.
pub fn join(words: &Vec<String>) -> (text: String)
    ensures
        text@ == joined(words.deep_view()),
{
    let mut text = String::new();
    let ghost all = words.deep_view();
    let mut i: usize = 0;
    while i < words.len()
        invariant
            i <= words.len(),
            all == words.deep_view(),
            text@ == joined(all.take(i as int)),
        decreases words.len() - i,
    {
        if i > 0 {
            proof {
                reveal_strlit(" ");
                assert(" "@ =~= seq![' ']);
            }
            text.append(" ");
        }
        text.append(words[i].as_str());
        proof {
            let next = all.take(i + 1);
            assert(next.drop_last() =~= all.take(i as int));
            assert(next.last() == words[i as int]@);
            if i == 0 {
                assert(Seq::<char>::empty() + words[i as int]@ =~= words[i as int]@);
            }
        }
        i += 1;
    }
    proof {
        assert(all.take(words.len() as int) =~= all);
    }
    text
}

} // verus!
