//! The model: the words it was fed, the transitions it learned from them, and
//! the walk that turns both into text.

use vstd::prelude::*;
use vstd::string::*;
use crate::cache::{Cache, Table, record, successors};
use crate::random::{RandomSource, ThreadRandom};
use crate::text::{Word, join_words, joined, split_words, str_views, tokens, word_views};
use crate::triples::{Triples, trigrams};

verus! {

/// What a model is, as contracts see it.
pub struct Model {
    /// The transitions learned so far.
    pub table: Table,
    /// Every word fed so far, in the order of feeding.
    pub history: Seq<Word>,
}

/// The words at the end of `history` that are carried into the next batch, so
/// that the windows across the join are seen: its last three, or none while it
/// holds fewer than three.
pub open spec fn boundary(history: Seq<Word>) -> Seq<Word> {
    if history.len() >= 3 {
        history.skip(history.len() - 3)
    } else {
        Seq::empty()
    }
}

/// `table` after each window of `windows` was recorded, from first to last: the
/// window's first two words are the key, its third the successor.
pub open spec fn record_all(table: Table, windows: Seq<(Word, Word, Word)>) -> Table
    decreases windows.len(),
{
    if windows.len() == 0 {
        table
    } else {
        let last = windows.last();
        record(record_all(table, windows.drop_last()), (last.0, last.1), last.2)
    }
}

/// `model` after `batch` was fed to it.
pub open spec fn fed(model: Model, batch: Seq<Word>) -> Model {
    Model {
        table: record_all(model.table, trigrams(boundary(model.history) + batch)),
        history: model.history + batch,
    }
}

/// `model` after each batch of `batches` was fed to it, from first to last.
pub open spec fn fed_each(model: Model, batches: Seq<Seq<Word>>) -> Model
    decreases batches.len(),
{
    if batches.len() == 0 {
        model
    } else {
        fed(fed_each(model, batches.drop_last()), batches.last())
    }
}

/// The words of each line of `lines`.
pub open spec fn line_tokens(lines: Seq<String>) -> Seq<Seq<Word>> {
    lines.map_values(|line: String| tokens(line@))
}

/// The successor that `draw` picks from `choices`.
pub open spec fn pick(choices: Seq<Word>, draw: u64) -> Word
    recommends
        choices.len() > 0,
{
    choices[(draw as int) % (choices.len() as int)]
}

/// The words of a walk of at most `size` words that starts at the pair `first`,
/// `second` and takes its draws from `draws`, one for each step.
///
/// Each turn puts out the first word of the pair. The walk ends there where the
/// pair has no successor, or no draw is left; else the draw picks a successor
/// and the pair moves on by one word.
pub open spec fn walk(table: Table, first: Word, second: Word, draws: Seq<u64>, size: nat) -> Seq<
    Word,
>
    decreases size,
{
    if size == 0 {
        Seq::empty()
    } else {
        let choices = successors(table, (first, second));
        if choices.len() == 0 || draws.len() == 0 {
            seq![first]
        } else {
            seq![first] + walk(
                table,
                second,
                pick(choices, draws[0]),
                draws.drop_first(),
                (size - 1) as nat,
            )
        }
    }
}

/// The place in a history of `len` words at which `draw` starts a walk.
pub open spec fn start_of(len: nat, draw: u64) -> int
    recommends
        len >= 3,
{
    (draw as int) % (len - 2)
}

/// Whether `words` is a walk of at most `size` words that the model can take:
/// one that starts at a pair of neighbours in its history which a third word
/// follows, and has a draw for every step.
pub open spec fn can_generate(model: Model, size: nat, words: Seq<Word>) -> bool {
    exists|start: int, draws: Seq<u64>|
        0 <= start <= model.history.len() - 3 && draws.len() >= size && words == #[trigger] walk(
            model.table,
            model.history[start],
            model.history[start + 1],
            draws,
            size,
        )
}

/// Why no text was generated.
#[derive(Debug, PartialEq, Eq, Clone, Copy)]
pub enum GenerateError {
    /// The model was fed fewer than three words, so no walk can start.
    InsufficientCorpus,
}

/// An order-2 Markov chain over words.
pub struct MarkovGenerator<C: Cache> {
    /// The transitions learned so far.
    pub cache: C,
    /// Every word fed so far, in the order of feeding.
    pub words: Vec<String>,
}

impl<C: Cache> View for MarkovGenerator<C> {
    type V = Model;

    open spec fn view(&self) -> Model {
        Model { table: self.cache.table(), history: word_views(self.words@) }
    }
}

impl<C: Cache> MarkovGenerator<C> {
    /// A model that was fed nothing, over the store `cache`.
    pub fn new(cache: C) -> (model: Self)
        ensures
            model.cache == cache,
            model.words@ == Seq::<String>::empty(),
            model@.history == Seq::<Word>::empty(),
            model@.table == cache.table(),
    {
        let model = MarkovGenerator { cache, words: Vec::new() };
        assert(model@.history =~= Seq::<Word>::empty());
        model
    }

    /// Feeds a batch of words to the model.
    ///
    /// The last three words fed before, where there are as many, are put in
    /// front of the batch, so that the windows across the join are seen. Each
    /// window of three words of the whole is recorded in the store, the one
    /// made of the carried words alone among them; then the batch is added to
    /// the history.
    pub fn feed_from_words(&mut self, words: &[&str])
        ensures
            final(self)@ == fed(old(self)@, str_views(words@)),
    {
        let ghost before = self@;
        let ghost batch = str_views(words@);
        let ghost joint = boundary(before.history) + batch;
        let held: usize = self.words.len();
        if held >= 3 {
            // The windows that begin in the carried words end within the first
            // two words of the batch.
            let mut head: Vec<&str> = Vec::new();
            head.push(self.words[held - 3].as_str());
            head.push(self.words[held - 2].as_str());
            head.push(self.words[held - 1].as_str());
            if words.len() >= 1 {
                head.push(words[0]);
            }
            if words.len() >= 2 {
                head.push(words[1]);
            }
            record_windows(&mut self.cache, head.as_slice());
            proof {
                assert(str_views(head@) =~= boundary(before.history) + batch.take(
                    if batch.len() >= 2 {
                        2
                    } else {
                        batch.len() as int
                    },
                ));
                assert(trigrams(joint) =~= trigrams(str_views(head@)) + trigrams(batch));
                lemma_record_all_concat(
                    before.table,
                    trigrams(str_views(head@)),
                    trigrams(batch),
                );
            }
        } else {
            assert(joint =~= batch);
        }
        record_windows(&mut self.cache, words);
        let mut i: usize = 0;
        assert(batch.take(0) =~= Seq::<Word>::empty());
        assert(before.history + Seq::<Word>::empty() =~= before.history);
        while i < words.len()
            invariant
                i <= words@.len(),
                batch == str_views(words@),
                self.cache.table() == record_all(before.table, trigrams(joint)),
                word_views(self.words@) == before.history + batch.take(i as int),
            decreases words@.len() - i,
        {
            let word = String::from_str(words[i]);
            assert(word_views(self.words@.push(word)) =~= word_views(self.words@).push(word@));
            assert(before.history + batch.take(i + 1) =~= (before.history + batch.take(
                i as int,
            )).push(words@[i as int]@));
            self.words.push(word);
            i += 1;
        }
        assert(batch.take(i as int) =~= batch);
    }

    /// Feeds the words of `line` to the model as one batch.
    pub fn feed_from_line(&mut self, line: &str)
        ensures
            final(self)@ == fed(old(self)@, tokens(line@)),
    {
        let words = split_words(line);
        let mut batch: Vec<&str> = Vec::new();
        let mut i: usize = 0;
        assert(str_views(batch@) =~= word_views(words@).take(0));
        while i < words.len()
            invariant
                i <= words@.len(),
                str_views(batch@) == word_views(words@).take(i as int),
            decreases words@.len() - i,
        {
            let word: &str = words[i].as_str();
            assert(str_views(batch@.push(word)) =~= str_views(batch@).push(word@));
            assert(word_views(words@).take(i + 1) =~= word_views(words@).take(i as int).push(
                word@,
            ));
            batch.push(word);
            i += 1;
        }
        assert(word_views(words@).take(i as int) =~= word_views(words@));
        self.feed_from_words(batch.as_slice());
    }

    /// Feeds `lines` to the model, each line as a batch of its own.
    pub fn feed_from_lines(&mut self, lines: &[String])
        ensures
            final(self)@ == fed_each(old(self)@, line_tokens(lines@)),
    {
        let ghost batches = line_tokens(lines@);
        let mut i: usize = 0;
        assert(batches.take(0) =~= Seq::<Seq<Word>>::empty());
        while i < lines.len()
            invariant
                i <= lines@.len(),
                batches == line_tokens(lines@),
                self@ == fed_each(old(self)@, batches.take(i as int)),
            decreases lines@.len() - i,
        {
            assert(batches.take(i + 1).drop_last() =~= batches.take(i as int));
            assert(batches.take(i + 1).last() == tokens(lines@[i as int]@));
            self.feed_from_line(lines[i].as_str());
            i += 1;
        }
        assert(batches.take(i as int) =~= batches);
    }

    /// The successors of the pair `first`, `second`, where it has any.
    fn choices(&self, first: &str, second: &str) -> (found: Option<&[String]>)
        ensures
            match found {
                Some(words) => words@.len() > 0 && word_views(words@) == successors(
                    self@.table,
                    (first@, second@),
                ),
                None => successors(self@.table, (first@, second@)).len() == 0,
            },
    {
        match self.cache.get((first, second)) {
            Some(words) => {
                assert(word_views(words@).len() == words@.len());
                if words.len() > 0 {
                    Some(words)
                } else {
                    None
                }
            },
            None => None,
        }
    }

    /// The word that follows the pair `first`, `second` when `draw` picks among
    /// its successors, or `None` where the pair has no successor.
    pub fn next_word(&self, first: &str, second: &str, draw: u64) -> (next: Option<&str>)
        ensures
            match next {
                Some(word) => successors(self@.table, (first@, second@)).len() > 0 && word@
                    == pick(successors(self@.table, (first@, second@)), draw),
                None => successors(self@.table, (first@, second@)).len() == 0,
            },
    {
        match self.choices(first, second) {
            Some(words) => Some(picked(words, draw)),
            None => None,
        }
    }

    /// The place in the history at which `draw` starts a walk: one of the places
    /// that have two words behind them.
    pub fn start_index(&self, draw: u64) -> (start: Result<usize, GenerateError>)
        ensures
            match start {
                Ok(at) => self@.history.len() >= 3 && at == start_of(self@.history.len(), draw)
                    && at + 3 <= self@.history.len(),
                Err(why) => self@.history.len() < 3 && why == GenerateError::InsufficientCorpus,
            },
    {
        let held: usize = self.words.len();
        assert(self@.history.len() == held);
        if held < 3 {
            return Err(GenerateError::InsufficientCorpus);
        }
        let places: u64 = (held - 2) as u64;
        Ok((draw % places) as usize)
    }

    /// The text of the walk of at most `size` words that starts where `start`
    /// says and takes its draws from `draws`.
    ///
    /// The walk ends early at a pair without successors, and where the draws
    /// run out. A model that holds fewer than three words has no walk.
    pub fn generate_text_from(&self, size: usize, start: u64, draws: &[u64]) -> (text: Result<
        String,
        GenerateError,
    >)
        ensures
            match text {
                Ok(passage) => self@.history.len() >= 3 && passage@ == joined(
                    walk(
                        self@.table,
                        self@.history[start_of(self@.history.len(), start)],
                        self@.history[start_of(self@.history.len(), start) + 1],
                        draws@,
                        size as nat,
                    ),
                ),
                Err(why) => self@.history.len() < 3 && why == GenerateError::InsufficientCorpus,
            },
    {
        let at: usize = match self.start_index(start) {
            Ok(at) => at,
            Err(why) => {
                return Err(why);
            },
        };
        let held: usize = self.words.len();
        assert(self@.history.len() == held);
        let mut first: &str = self.words[at].as_str();
        let mut second: &str = self.words[at + 1].as_str();
        let ghost table = self@.table;
        let ghost whole = walk(table, first@, second@, draws@, size as nat);
        let mut out: Vec<&str> = Vec::new();
        let mut i: usize = 0;
        assert(draws@.skip(0) =~= draws@);
        assert(str_views(out@) + whole =~= whole);
        while i < size
            invariant_except_break
                i <= size,
                i <= draws@.len(),
                str_views(out@) + walk(
                    table,
                    first@,
                    second@,
                    draws@.skip(i as int),
                    (size - i) as nat,
                ) == whole,
            invariant
                table == self@.table,
            ensures
                str_views(out@) == whole,
            decreases size - i,
        {
            let ghost rest = draws@.skip(i as int);
            assert(str_views(out@.push(first)) =~= str_views(out@) + seq![first@]);
            out.push(first);
            if i >= draws.len() {
                assert(walk(table, first@, second@, rest, (size - i) as nat) == seq![first@]);
                break ;
            }
            match self.next_word(first, second, draws[i]) {
                Some(word) => {
                    proof {
                        assert(rest[0] == draws@[i as int]);
                        assert(rest.drop_first() =~= draws@.skip(i + 1));
                        let more = walk(
                            table,
                            second@,
                            word@,
                            draws@.skip(i + 1),
                            (size - i - 1) as nat,
                        );
                        assert((str_views(out@) + seq![first@]) + more =~= str_views(out@)
                            + (seq![first@] + more));
                    }
                    first = second;
                    second = word;
                },
                None => {
                    break ;
                },
            }
            i += 1;
        }
        Ok(join_words(out.as_slice()))
    }

    /// The text of a walk of at most `size` words that starts at a place in the
    /// history which `rng` picks, and at each step moves on to a successor
    /// which `rng` picks.
    ///
    /// The walk ends early only at a pair without successors. A model that
    /// holds fewer than three words has no walk.
    pub fn generate_text_with<R: RandomSource>(&self, size: usize, rng: &mut R) -> (text: Result<
        String,
        GenerateError,
    >)
        ensures
            match text {
                Ok(passage) => self@.history.len() >= 3 && exists|words: Seq<Word>|
                    #[trigger] can_generate(self@, size as nat, words) && passage@ == joined(words),
                Err(why) => self@.history.len() < 3 && why == GenerateError::InsufficientCorpus,
            },
    {
        let at: usize = match self.start_index(rng.next_u64()) {
            Ok(at) => at,
            Err(why) => {
                return Err(why);
            },
        };
        let held: usize = self.words.len();
        assert(self@.history.len() == held);
        let mut first: &str = self.words[at].as_str();
        let mut second: &str = self.words[at + 1].as_str();
        let ghost table = self@.table;
        let ghost head = first@;
        let ghost neck = second@;
        let ghost mut drawn: Seq<u64> = Seq::empty();
        let mut out: Vec<&str> = Vec::new();
        let mut i: usize = 0;
        assert forall|rest: Seq<u64>|
            #[trigger] walk(table, head, neck, drawn + rest, size as nat) == str_views(out@)
                + walk(table, first@, second@, rest, (size - i) as nat) by {
            assert(drawn + rest =~= rest);
            assert(str_views(out@) + walk(table, first@, second@, rest, size as nat) =~= walk(
                table,
                first@,
                second@,
                rest,
                size as nat,
            ));
        }
        loop
            invariant_except_break
                i <= size,
                drawn.len() == i,
                forall|rest: Seq<u64>|
                    #[trigger] walk(table, head, neck, drawn + rest, size as nat) == str_views(out@)
                        + walk(table, first@, second@, rest, (size - i) as nat),
            invariant
                table == self@.table,
            ensures
                exists|draws: Seq<u64>|
                    draws.len() >= size && str_views(out@) == #[trigger] walk(
                        table,
                        head,
                        neck,
                        draws,
                        size as nat,
                    ),
            decreases size - i,
        {
            if i >= size {
                proof {
                    let rest = Seq::<u64>::empty();
                    assert(drawn + rest =~= drawn);
                    assert(walk(table, head, neck, drawn + rest, size as nat) == str_views(out@)
                        + walk(table, first@, second@, rest, 0));
                    assert(str_views(out@) + Seq::<Word>::empty() =~= str_views(out@));
                }
                break ;
            }
            let ghost before = str_views(out@);
            assert(str_views(out@.push(first)) =~= before + seq![first@]);
            out.push(first);
            match self.choices(first, second) {
                Some(words) => {
                    let draw: u64 = rng.next_u64();
                    let word: &str = picked(words, draw);
                    proof {
                        let longer = drawn.push(draw);
                        assert forall|rest: Seq<u64>|
                            #[trigger] walk(table, head, neck, longer + rest, size as nat)
                                == str_views(out@) + walk(
                                table,
                                second@,
                                word@,
                                rest,
                                (size - i - 1) as nat,
                            ) by {
                            let ahead = seq![draw] + rest;
                            assert(drawn + ahead =~= longer + rest);
                            assert(ahead.drop_first() =~= rest);
                            assert(walk(table, head, neck, drawn + ahead, size as nat) == before
                                + walk(table, first@, second@, ahead, (size - i) as nat));
                            let more = walk(table, second@, word@, rest, (size - i - 1) as nat);
                            assert(before + (seq![first@] + more) =~= (before + seq![first@])
                                + more);
                        }
                        drawn = longer;
                    }
                    first = second;
                    second = word;
                },
                None => {
                    proof {
                        let rest = Seq::new((size - i) as nat, |j: int| 0u64);
                        assert(walk(table, head, neck, drawn + rest, size as nat) == before + walk(
                            table,
                            first@,
                            second@,
                            rest,
                            (size - i) as nat,
                        ));
                    }
                    break ;
                },
            }
            i += 1;
        }
        proof {
            let draws = choose|draws: Seq<u64>|
                draws.len() >= size && str_views(out@) == #[trigger] walk(
                    table,
                    head,
                    neck,
                    draws,
                    size as nat,
                );
            assert(head == self@.history[at as int]);
            assert(neck == self@.history[at + 1]);
            assert(can_generate(self@, size as nat, str_views(out@)));
        }
        Ok(join_words(out.as_slice()))
    }

    /// The text of a walk of at most `size` words whose start and steps the
    /// thread's random number generator picks.
    ///
    /// The walk ends early only at a pair without successors. A model that
    /// holds fewer than three words has no walk.
    pub fn generate_text(&self, size: usize) -> (text: Result<String, GenerateError>)
        ensures
            match text {
                Ok(passage) => self@.history.len() >= 3 && exists|words: Seq<Word>|
                    #[trigger] can_generate(self@, size as nat, words) && passage@ == joined(words),
                Err(why) => self@.history.len() < 3 && why == GenerateError::InsufficientCorpus,
            },
    {
        let mut rng = ThreadRandom;
        self.generate_text_with(size, &mut rng)
    }
}

/// Records each window of three words of `items` in `cache`, from first to
/// last.
fn record_windows<C: Cache>(cache: &mut C, items: &[&str])
    ensures
        final(cache).table() == record_all(old(cache).table(), trigrams(str_views(items@))),
{
    let ghost before = cache.table();
    let ghost words = str_views(items@);
    let ghost windows = trigrams(words);
    let ghost mut seen: int = 0;
    let mut triples = Triples::new(items);
    assert(windows.take(0) =~= Seq::<(Word, Word, Word)>::empty());
    assert(words.skip(0) =~= words);
    loop
        invariant_except_break
            0 <= seen <= windows.len(),
            seen <= words.len(),
            str_views(triples.remaining()) == words.skip(seen),
            cache.table() == record_all(before, windows.take(seen)),
        invariant
            words == str_views(items@),
            windows == trigrams(words),
        ensures
            cache.table() == record_all(before, windows),
        decreases triples.remaining().len(),
    {
        let ghost rest = triples.remaining();
        assert(str_views(rest).len() == rest.len());
        match triples.next() {
            Some((first, second, third)) => {
                proof {
                    assert(str_views(rest.skip(1)) =~= str_views(rest).skip(1));
                    assert(words.skip(seen).skip(1) =~= words.skip(seen + 1));
                    assert(rest[0]@ == words.skip(seen)[0]);
                    assert(rest[1]@ == words.skip(seen)[1]);
                    assert(rest[2]@ == words.skip(seen)[2]);
                    assert(windows.take(seen + 1).drop_last() =~= windows.take(seen));
                    assert(windows.take(seen + 1).last() == (first@, second@, third@));
                }
                cache.put((*first, *second), *third);
                proof {
                    seen = seen + 1;
                }
            },
            None => {
                assert(windows.take(seen) =~= windows);
                break ;
            },
        }
    }
}

/// Recording two runs of windows one after the other is recording their
/// concatenation.
pub proof fn lemma_record_all_concat(
    table: Table,
    front: Seq<(Word, Word, Word)>,
    back: Seq<(Word, Word, Word)>,
)
    ensures
        record_all(table, front + back) == record_all(record_all(table, front), back),
    decreases back.len(),
{
    if back.len() == 0 {
        assert(front + back =~= front);
    } else {
        assert((front + back).drop_last() =~= front + back.drop_last());
        assert((front + back).last() == back.last());
        lemma_record_all_concat(table, front, back.drop_last());
    }
}

/// The item of `words` that `draw` picks.
fn picked(words: &[String], draw: u64) -> (word: &str)
    requires
        words@.len() > 0,
    ensures
        word@ == pick(word_views(words@), draw),
{
    let count: u64 = words.len() as u64;
    let at: usize = (draw % count) as usize;
    words[at].as_str()
}

} // verus!
