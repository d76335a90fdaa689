use markov::generator::GenerateError;
use markov::text::split_words;
use markov::{Cache, MarkovGenerator, RandomSource, ThreadRandom, TransitionTable};

/// Hands out the draws of a list, round and round.
struct Replay {
    draws: Vec<u64>,
    next: usize,
}

impl Replay {
    fn of(draws: &[u64]) -> Replay {
        Replay { draws: draws.to_vec(), next: 0 }
    }
}

impl RandomSource for Replay {
    fn next_u64(&mut self) -> u64 {
        let draw = self.draws[self.next % self.draws.len()];
        self.next += 1;
        draw
    }
}

fn owned(words: &[&str]) -> Vec<String> {
    words.iter().map(|w| w.to_string()).collect()
}

fn model_of(words: &[&str]) -> MarkovGenerator<TransitionTable> {
    let mut model = MarkovGenerator::new(TransitionTable::new());
    model.feed_from_words(words);
    model
}

fn model_of_text(text: &str) -> MarkovGenerator<TransitionTable> {
    let mut model = MarkovGenerator::new(TransitionTable::new());
    model.feed_from_line(text);
    model
}

fn successors(model: &MarkovGenerator<TransitionTable>, first: &str, second: &str) -> Vec<String> {
    match model.cache.get((first, second)) {
        Some(words) => words.to_vec(),
        None => Vec::new(),
    }
}

#[test]
fn new_model_is_empty() {
    let model = MarkovGenerator::new(TransitionTable::new());
    assert!(model.words.is_empty());
    assert!(!model.cache.has(("a", "b")));
}

#[test]
fn new_model_keeps_the_store_it_was_given() {
    let mut table = TransitionTable::new();
    table.put(("x", "y"), "z");
    let model = MarkovGenerator::new(table);
    assert!(model.words.is_empty());
    assert_eq!(successors(&model, "x", "y"), owned(&["z"]));
}

#[test]
fn feed_records_the_cat_sat() {
    let model = model_of(&["the", "cat", "sat", "on", "the", "mat"]);
    assert_eq!(successors(&model, "the", "cat"), owned(&["sat"]));
    assert_eq!(successors(&model, "cat", "sat"), owned(&["on"]));
    assert_eq!(successors(&model, "sat", "on"), owned(&["the"]));
    assert_eq!(successors(&model, "on", "the"), owned(&["mat"]));
    assert!(!model.cache.has(("the", "mat")));
    assert!(!model.cache.has(("mat", "the")));
}

#[test]
fn feed_records_every_window_of_a_batch() {
    let words = ["a", "b", "c", "d", "e", "f", "g"];
    let model = model_of(&words);
    for i in 0..words.len() - 2 {
        assert_eq!(successors(&model, words[i], words[i + 1]), owned(&[words[i + 2]]));
    }
    assert!(!model.cache.has(("f", "g")));
}

#[test]
fn feed_keeps_what_the_batch_repeats() {
    let model = model_of(&["a", "b", "x", "a", "b", "y", "a", "b", "x"]);
    assert_eq!(successors(&model, "a", "b"), owned(&["x", "y", "x"]));
    assert_eq!(successors(&model, "b", "x"), owned(&["a"]));
    assert_eq!(successors(&model, "x", "a"), owned(&["b"]));
}

#[test]
fn feed_of_fewer_than_three_words_records_nothing() {
    let model = model_of(&["a", "b"]);
    assert_eq!(model.words, owned(&["a", "b"]));
    assert!(!model.cache.has(("a", "b")));
}

#[test]
fn feed_appends_to_the_history() {
    let mut model = MarkovGenerator::new(TransitionTable::new());
    model.feed_from_words(&["a", "b"]);
    model.feed_from_words(&[]);
    model.feed_from_words(&["c"]);
    model.feed_from_words(&["d", "e", "f"]);
    assert_eq!(model.words, owned(&["a", "b", "c", "d", "e", "f"]));
}

#[test]
fn empty_feed_into_short_history_changes_nothing() {
    let mut model = model_of(&["a", "b"]);
    model.feed_from_words(&[]);
    assert_eq!(model.words, owned(&["a", "b"]));
    assert!(!model.cache.has(("a", "b")));
}

#[test]
fn empty_feed_into_longer_history_repeats_the_last_window() {
    let mut model = model_of(&["a", "b", "c", "d"]);
    model.feed_from_words(&[]);
    assert_eq!(model.words, owned(&["a", "b", "c", "d"]));
    assert_eq!(successors(&model, "a", "b"), owned(&["c"]));
    assert_eq!(successors(&model, "b", "c"), owned(&["d", "d"]));
}

#[test]
fn history_of_exactly_three_words_is_carried() {
    let mut model = model_of(&["a", "b", "c"]);
    model.feed_from_words(&["d"]);
    assert_eq!(successors(&model, "a", "b"), owned(&["c", "c"]));
    assert_eq!(successors(&model, "b", "c"), owned(&["d"]));
}

#[test]
fn second_feed_sees_the_windows_across_the_join() {
    let mut model = model_of(&["a", "b", "c"]);
    model.feed_from_words(&["d", "e"]);
    assert_eq!(model.words, owned(&["a", "b", "c", "d", "e"]));
    assert_eq!(successors(&model, "b", "c"), owned(&["d"]));
    assert_eq!(successors(&model, "c", "d"), owned(&["e"]));
    assert!(!model.cache.has(("d", "e")));
}

#[test]
fn second_feed_repeats_the_last_window_before_the_join() {
    let mut split = model_of(&["a", "b", "c"]);
    split.feed_from_words(&["d", "e"]);
    let whole = model_of(&["a", "b", "c", "d", "e"]);
    assert_eq!(successors(&whole, "a", "b"), owned(&["c"]));
    assert_eq!(successors(&split, "a", "b"), owned(&["c", "c"]));
    for (first, second) in [("b", "c"), ("c", "d"), ("d", "e"), ("e", "a")] {
        assert_eq!(successors(&split, first, second), successors(&whole, first, second));
    }
}

#[test]
fn join_after_a_short_history_is_not_bridged() {
    let mut model = model_of(&["a", "b"]);
    model.feed_from_words(&["c", "d"]);
    assert_eq!(model.words, owned(&["a", "b", "c", "d"]));
    assert!(!model.cache.has(("a", "b")));
    assert!(!model.cache.has(("b", "c")));
}

#[test]
fn split_feed_of_a_short_corpus_is_one_feed() {
    let mut split = model_of(&["a"]);
    split.feed_from_words(&["b"]);
    let whole = model_of(&["a", "b"]);
    assert_eq!(split.words, whole.words);
    assert!(!split.cache.has(("a", "b")));
    assert!(!whole.cache.has(("a", "b")));
}

#[test]
fn feed_from_line_feeds_the_words_of_the_line() {
    let mut model = MarkovGenerator::new(TransitionTable::new());
    model.feed_from_line("  my name\tis  Alice \r\n");
    assert_eq!(model.words, owned(&["my", "name", "is", "Alice"]));
    assert_eq!(successors(&model, "my", "name"), owned(&["is"]));
    assert_eq!(successors(&model, "name", "is"), owned(&["Alice"]));
}

#[test]
fn feed_from_lines_bridges_the_line_ends() {
    let mut model = MarkovGenerator::new(TransitionTable::new());
    model.feed_from_lines(&owned(&["hello world my", "", "name is"]));
    assert_eq!(model.words, owned(&["hello", "world", "my", "name", "is"]));
    assert_eq!(successors(&model, "world", "my"), owned(&["name"]));
    assert_eq!(successors(&model, "my", "name"), owned(&["is"]));
    assert_eq!(successors(&model, "hello", "world"), owned(&["my", "my", "my"]));
}

#[test]
fn start_index_stays_where_two_words_follow() {
    let model = model_of(&["a", "b", "c", "d", "e"]);
    assert_eq!(model.start_index(0), Ok(0));
    assert_eq!(model.start_index(2), Ok(2));
    assert_eq!(model.start_index(3), Ok(0));
    assert_eq!(model.start_index(7), Ok(1));
    assert_eq!(model.start_index(u64::MAX), Ok((u64::MAX % 3) as usize));
}

#[test]
fn start_index_needs_three_words() {
    assert_eq!(model_of(&[]).start_index(0), Err(GenerateError::InsufficientCorpus));
    assert_eq!(model_of(&["a", "b"]).start_index(5), Err(GenerateError::InsufficientCorpus));
    assert_eq!(model_of(&["a", "b", "c"]).start_index(5), Ok(0));
}

#[test]
fn next_word_picks_by_the_draw() {
    let model = model_of(&["a", "b", "x", "a", "b", "y", "a", "b", "z"]);
    assert_eq!(model.next_word("a", "b", 0), Some("x"));
    assert_eq!(model.next_word("a", "b", 1), Some("y"));
    assert_eq!(model.next_word("a", "b", 2), Some("z"));
    assert_eq!(model.next_word("a", "b", 3), Some("x"));
    assert_eq!(model.next_word("a", "b", 100), Some("y"));
    assert_eq!(model.next_word("b", "a", 0), None);
    assert_eq!(model.next_word("b", "z", 0), None);
}

#[test]
fn next_word_weighs_successors_by_their_count() {
    let mut model = MarkovGenerator::new(TransitionTable::new());
    for _ in 0..9 {
        model.cache.put(("k", "l"), "x");
    }
    model.cache.put(("k", "l"), "y");
    let mut x = 0;
    let mut y = 0;
    for draw in 0..1000u64 {
        match model.next_word("k", "l", draw) {
            Some("x") => x += 1,
            Some("y") => y += 1,
            other => panic!("unexpected successor {:?}", other),
        }
    }
    assert_eq!(x, 900);
    assert_eq!(y, 100);
}

#[test]
fn random_walk_weighs_successors_by_their_count() {
    let mut model = model_of(&["k", "l", "x"]);
    for _ in 0..8 {
        model.cache.put(("k", "l"), "x");
    }
    model.cache.put(("k", "l"), "y");
    let mut rng = ThreadRandom;
    let mut x = 0;
    let mut y = 0;
    for _ in 0..4000 {
        match model.next_word("k", "l", rng.next_u64()) {
            Some("x") => x += 1,
            Some("y") => y += 1,
            other => panic!("unexpected successor {:?}", other),
        }
    }
    assert_eq!(x + y, 4000);
    assert!(x > 5 * y, "x was picked {} times, y {} times", x, y);
    assert!(y > 0);
}

#[test]
fn generate_from_single_window_ends_at_the_unknown_pair() {
    let model = model_of(&["a", "b", "c"]);
    assert_eq!(model.generate_text(3), Ok("a b".to_string()));
    assert_eq!(model.generate_text(30), Ok("a b".to_string()));
    assert_eq!(model.generate_text_from(3, 17, &[4, 5, 6]), Ok("a b".to_string()));
    assert_eq!(model.generate_text_with(3, &mut Replay::of(&[9])), Ok("a b".to_string()));
}

#[test]
fn generate_on_empty_model_fails() {
    let model = MarkovGenerator::new(TransitionTable::new());
    assert_eq!(model.generate_text(5), Err(GenerateError::InsufficientCorpus));
    assert_eq!(model.generate_text_from(5, 0, &[0]), Err(GenerateError::InsufficientCorpus));
    assert_eq!(
        model.generate_text_with(5, &mut Replay::of(&[0])),
        Err(GenerateError::InsufficientCorpus)
    );
}

#[test]
fn generate_on_two_word_model_fails() {
    let model = model_of(&["a", "b"]);
    assert_eq!(model.generate_text(1), Err(GenerateError::InsufficientCorpus));
    assert_eq!(model.generate_text(0), Err(GenerateError::InsufficientCorpus));
}

#[test]
fn generate_of_no_words_is_empty() {
    let model = model_of(&["a", "b", "c"]);
    assert_eq!(model.generate_text(0), Ok(String::new()));
    assert_eq!(model.generate_text_from(0, 0, &[]), Ok(String::new()));
}

#[test]
fn generate_of_one_word_is_the_start() {
    let model = model_of(&["a", "b", "c", "d"]);
    assert_eq!(model.generate_text_from(1, 0, &[0]), Ok("a".to_string()));
    assert_eq!(model.generate_text_from(1, 1, &[0]), Ok("b".to_string()));
    assert_eq!(model.generate_text_from(1, 2, &[0]), Ok("a".to_string()));
}

#[test]
fn generate_from_follows_the_draws() {
    let model = model_of(&["a", "b", "x", "a", "b", "y", "a", "b", "z"]);
    // From (a, b) draw 1 picks y, from (b, y) comes a, from (y, a) comes b, from (a, b)
    // draw 2 picks z, and (b, z) has no successor: z itself is never put out.
    assert_eq!(
        model.generate_text_from(6, 0, &[1, 0, 0, 2, 0, 0]),
        Ok("a b y a b".to_string())
    );
    assert_eq!(model.generate_text_from(4, 0, &[1, 0, 0, 2]), Ok("a b y a".to_string()));
    // (b, z) has no successor: the walk ends with b although more was asked for.
    assert_eq!(
        model.generate_text_from(20, 0, &[2; 20]),
        Ok("a b".to_string())
    );
    // Start 10 of 7 places is place 3: the pair (a, b) again.
    assert_eq!(model.generate_text_from(3, 10, &[0, 0, 0]), Ok("a b x".to_string()));
    // Start 2 is the pair (x, a).
    assert_eq!(model.generate_text_from(4, 2, &[0, 1, 0, 0]), Ok("x a b y".to_string()));
}

#[test]
fn generate_from_ends_where_the_draws_run_out() {
    let model = model_of(&["a", "b", "a", "b", "a", "b"]);
    assert_eq!(model.generate_text_from(5, 0, &[0, 0, 0, 0, 0]), Ok("a b a b a".to_string()));
    assert_eq!(model.generate_text_from(5, 0, &[0, 0]), Ok("a b a".to_string()));
    assert_eq!(model.generate_text_from(5, 0, &[]), Ok("a".to_string()));
}

#[test]
fn generate_with_takes_start_and_steps_from_the_source() {
    let model = model_of(&["a", "b", "x", "a", "b", "y", "a", "b", "z"]);
    let mut rng = Replay::of(&[0, 1, 0, 0, 2, 0, 0]);
    assert_eq!(model.generate_text_with(6, &mut rng), Ok("a b y a b".to_string()));
    let mut rng = Replay::of(&[3, 0]);
    assert_eq!(model.generate_text_with(4, &mut rng), Ok("a b x a".to_string()));
}

#[test]
fn generate_with_agrees_with_generate_from() {
    let model =
        model_of_text("one fish two fish red fish blue fish one fish two fish old fish new fish");
    for start in 0..20u64 {
        let draws: Vec<u64> = (0..12).map(|i| start * 31 + i * 7).collect();
        let mut all = vec![start];
        all.extend(draws.iter().copied());
        let mut rng = Replay::of(&all);
        let with = model.generate_text_with(12, &mut rng);
        assert_eq!(with, model.generate_text_from(12, start, &draws));
    }
}

#[test]
fn generated_text_is_never_longer_than_asked() {
    let model = model_of_text("the cat sat on the mat and the cat sat on the hat");
    for size in 0..40 {
        let text = model.generate_text(size).unwrap();
        let count = split_words(&text).len();
        assert!(count <= size);
        assert!(size == 0 || count >= 1);
    }
}

#[test]
fn generated_text_follows_recorded_transitions() {
    let model = model_of_text("the cat sat on the mat and the cat sat on the hat and the dog");
    let corpus = model.words.clone();
    for _ in 0..200 {
        let text = model.generate_text(25).unwrap();
        let words = split_words(&text);
        assert!(!words.is_empty() && words.len() <= 25);
        let starts_in_history = (0..corpus.len() - 2)
            .any(|i| corpus[i] == words[0] && (words.len() < 2 || corpus[i + 1] == words[1]));
        assert!(starts_in_history);
        for i in 0..words.len().saturating_sub(2) {
            let choices = successors(&model, &words[i], &words[i + 1]);
            assert!(choices.contains(&words[i + 2]));
        }
    }
}

#[test]
fn generate_does_not_change_the_model() {
    let model = model_of(&["a", "b", "c", "a", "b", "d"]);
    let _ = model.generate_text(10);
    assert_eq!(model.words, owned(&["a", "b", "c", "a", "b", "d"]));
    assert_eq!(successors(&model, "a", "b"), owned(&["c", "d"]));
}

#[test]
fn thread_random_draws_vary() {
    let mut rng = ThreadRandom;
    let first = rng.next_u64();
    let varied = (0..64).any(|_| rng.next_u64() != first);
    assert!(varied);
}

#[test]
fn usage_example_runs() {
    let mut markov = MarkovGenerator::new(TransitionTable::new());
    markov.feed_from_words(&["Hello", "world", "my", "name", "is", "KokaKiwi"]);
    let text = markov.generate_text(15).unwrap();
    let words = split_words(&text);
    assert!(!words.is_empty() && words.len() <= 5);
}
