//! Text at the edges of the model: cutting a line into words and joining words
//! into a passage.

use vstd::prelude::*;
use vstd::string::*;

verus! {

/// A word, as contracts see it.
pub type Word = Seq<char>;

/// The words of `words`, each by its characters.
pub open spec fn word_views(words: Seq<String>) -> Seq<Word> {
    words.map_values(|w: String| w@)
}

/// The words of `words`, each by its characters.
pub open spec fn str_views(words: Seq<&str>) -> Seq<Word> {
    words.map_values(|w: &str| w@)
}

/// The characters that part two words of a line.
pub open spec fn is_separator(c: char) -> bool {
    c == ' ' || c == '\t' || c == '\n' || c == '\r'
}

/// How many characters at the front of `line` stand before its first separator.
pub open spec fn run_length(line: Seq<char>) -> nat
    decreases line.len(),
{
    if line.len() == 0 || is_separator(line[0]) {
        0
    } else {
        1 + run_length(line.drop_first())
    }
}

/// The words of `line`: its longest runs of characters that are no separators,
/// from left to right.
pub open spec fn tokens(line: Seq<char>) -> Seq<Word>
    decreases line.len(),
    via tokens_shrink
{
    if line.len() == 0 {
        Seq::empty()
    } else if is_separator(line[0]) {
        tokens(line.drop_first())
    } else {
        seq![line.take(run_length(line) as int)] + tokens(line.skip(run_length(line) as int))
    }
}

#[via_fn]
proof fn tokens_shrink(line: Seq<char>) {
    lemma_run_length(line);
}

/// `words` with one space between each two neighbours.
pub open spec fn joined(words: Seq<Word>) -> Seq<char>
    decreases words.len(),
{
    if words.len() == 0 {
        Seq::empty()
    } else if words.len() == 1 {
        words[0]
    } else {
        joined(words.drop_last()) + seq![' '] + words.last()
    }
}

/// A run is never longer than its line, holds no separator, and ends at a
/// separator or at the end of the line.
pub proof fn lemma_run_length(line: Seq<char>)
    ensures
        run_length(line) <= line.len(),
        forall|i: int| 0 <= i < run_length(line) ==> !is_separator(#[trigger] line[i]),
        run_length(line) < line.len() ==> is_separator(line[run_length(line) as int]),
    decreases line.len(),
{
    if line.len() == 0 || is_separator(line[0]) {
    } else {
        let rest = line.drop_first();
        lemma_run_length(rest);
        assert forall|i: int| 0 <= i < run_length(line) implies !is_separator(
            #[trigger] line[i],
        ) by {
            if i > 0 {
                assert(line[i] == rest[i - 1]);
            }
        }
        if run_length(line) < line.len() {
            assert(line[run_length(line) as int] == rest[run_length(rest) as int]);
        }
    }
}

/// The run at the front of `line` is as long as the first `n` characters where
/// none of these is a separator and the next one, if there is one, is.
proof fn lemma_run_ends_at(line: Seq<char>, n: int)
    requires
        0 <= n <= line.len(),
        forall|i: int| 0 <= i < n ==> !is_separator(line[i]),
        n < line.len() ==> is_separator(line[n]),
    ensures
        run_length(line) == n,
    decreases n,
{
    if n > 0 {
        let rest = line.drop_first();
        assert forall|i: int| 0 <= i < n - 1 implies !is_separator(rest[i]) by {
            assert(rest[i] == line[i + 1]);
        }
        lemma_run_ends_at(rest, n - 1);
    }
}

/// Whether `c` parts two words of a line.
pub fn separates(c: char) -> (yes: bool)
    ensures
        yes == is_separator(c),
{
    c == ' ' || c == '\t' || c == '\n' || c == '\r'
}

/// `String::push` of std puts one character behind the last one of a string.
pub assume_specification[ String::push ](text: &mut String, c: char)
    ensures
        final(text)@ == old(text)@.push(c),
;

/// Cuts `line` at its separators and hands out the pieces that are not empty.
pub fn split_words(line: &str) -> (words: Vec<String>)
    ensures
        word_views(words@) == tokens(line@),
{
    broadcast use vstd::string::group_string_axioms;

    let mut words: Vec<String> = Vec::new();
    let mut word = String::new();
    let ghost mut start: int = 0;
    assert(line@.skip(0) =~= line@);
    assert(word_views(words@) =~= Seq::<Word>::empty());
    assert(word@ =~= line@.subrange(0, 0));
    for c in it: line.chars()
        invariant
            it.seq() == line@,
            0 <= start <= it.index(),
            word@ == line@.subrange(start, it.index() as int),
            forall|k: int| start <= k < it.index() ==> !is_separator(line@[k]),
            word_views(words@) + tokens(line@.skip(start)) == tokens(line@),
    {
        let ghost at = it.index() as int;
        let ghost rest = line@.skip(start);
        assert(c == line@[at]);
        if separates(c) {
            if !word.as_str().is_empty() {
                proof {
                    lemma_run_ends_at(rest, at - start);
                    assert(rest.take(at - start) =~= word@);
                    assert(rest.skip(at - start) =~= line@.skip(at));
                    assert(tokens(rest) == seq![word@] + tokens(line@.skip(at)));
                    assert(word_views(words@.push(word)) =~= word_views(words@) + seq![word@]);
                    assert(word_views(words@.push(word)) + tokens(line@.skip(at)) =~= word_views(
                        words@,
                    ) + tokens(rest));
                }
                words.push(word);
                word = String::new();
            } else {
                assert(rest =~= line@.skip(at));
            }
            proof {
                assert(is_separator(line@.skip(at)[0]));
                assert(line@.skip(at).drop_first() =~= line@.skip(at + 1));
                assert(tokens(line@.skip(at)) == tokens(line@.skip(at + 1)));
                start = at + 1;
                assert(word@ =~= line@.subrange(start, at + 1));
            }
        } else {
            word.push(c);
            assert(word@ =~= line@.subrange(start, at + 1));
        }
    }
    let ghost end = line@.len() as int;
    let ghost rest = line@.skip(start);
    if !word.as_str().is_empty() {
        proof {
            lemma_run_ends_at(rest, end - start);
            assert(rest.take(end - start) =~= word@);
            assert(tokens(rest.skip(end - start)) =~= Seq::<Word>::empty());
            assert(word_views(words@.push(word)) =~= word_views(words@) + seq![word@]);
        }
        words.push(word);
    } else {
        assert(tokens(rest) =~= Seq::<Word>::empty());
    }
    words
}

/// Joins `words` with one space between each two neighbours.
pub fn join_words(words: &[&str]) -> (text: String)
    ensures
        text@ == joined(str_views(words@)),
{
    let mut text = String::new();
    let mut i: usize = 0;
    while i < words.len()
        invariant
            i <= words@.len(),
            text@ == joined(str_views(words@).take(i as int)),
        decreases words@.len() - i,
    {
        let ghost done = str_views(words@).take(i as int);
        let ghost more = str_views(words@).take(i + 1);
        proof {
            assert(more.drop_last() =~= done);
            assert(more.last() == words@[i as int]@);
            reveal_strlit(" ");
            assert(" "@ =~= seq![' ']);
            if i == 0 {
                assert(more[0] =~= Seq::<char>::empty() + more[0]);
            }
        }
        if i > 0 {
            text.append(" ");
        }
        text.append(words[i]);
        i += 1;
    }
    assert(str_views(words@).take(i as int) =~= str_views(words@));
    text
}

} // verus!
