//! What holds of the model whatever it is fed and whatever is drawn.

use vstd::arithmetic::div_mod::{lemma_mod_multiples_vanish, lemma_mod_pos_bound, lemma_small_mod};
use vstd::prelude::*;
use crate::cache::{Table, record, successors};
use crate::generator::{
    Model, boundary, can_generate, fed, fed_each, lemma_record_all_concat, pick, record_all, walk,
};
use crate::text::{Word, is_separator, lemma_run_length, run_length, tokens};
use crate::triples::trigrams;

verus! {

/// The third words of those windows of `windows` whose first two words are
/// `key`, in the order of the windows.
pub open spec fn followers(windows: Seq<(Word, Word, Word)>, key: (Word, Word)) -> Seq<Word>
    decreases windows.len(),
{
    if windows.len() == 0 {
        Seq::empty()
    } else {
        let last = windows.last();
        let before = followers(windows.drop_last(), key);
        if (last.0, last.1) == key {
            before.push(last.2)
        } else {
            before
        }
    }
}

/// Whether some window of `windows` has `key` as its first two words.
pub open spec fn seen(windows: Seq<(Word, Word, Word)>, key: (Word, Word)) -> bool {
    exists|i: int| 0 <= i < windows.len() && (#[trigger] windows[i].0, windows[i].1) == key
}

/// A store holds a key exactly if it held it before or a recorded window
/// begins with it, and the key's successors are those it had before, then the
/// third word of each recorded window that begins with it, in the order of
/// recording.
pub proof fn law_store_holds_what_was_seen(
    table: Table,
    windows: Seq<(Word, Word, Word)>,
    key: (Word, Word),
)
    ensures
        record_all(table, windows).contains_key(key) <==> table.contains_key(key) || seen(
            windows,
            key,
        ),
        successors(record_all(table, windows), key) == successors(table, key) + followers(
            windows,
            key,
        ),
        seen(windows, key) <==> followers(windows, key).len() > 0,
    decreases windows.len(),
{
    if windows.len() == 0 {
        assert(successors(table, key) + followers(windows, key) =~= successors(table, key));
    } else {
        let front = windows.drop_last();
        let last = windows.last();
        law_store_holds_what_was_seen(table, front, key);
        if seen(front, key) {
            let i = choose|i: int|
                0 <= i < front.len() && (#[trigger] front[i].0, front[i].1) == key;
            assert((windows[i].0, windows[i].1) == key);
        }
        if (last.0, last.1) == key {
            assert((windows[windows.len() - 1].0, windows[windows.len() - 1].1) == key);
            assert(successors(table, key) + followers(front, key).push(last.2) =~= (successors(
                table,
                key,
            ) + followers(front, key)).push(last.2));
        }
        if seen(windows, key) && (last.0, last.1) != key {
            let i = choose|i: int|
                0 <= i < windows.len() && (#[trigger] windows[i].0, windows[i].1) == key;
            assert((front[i].0, front[i].1) == key);
        }
    }
}

/// A word is among the followers of a key exactly if some window is the key
/// followed by that word: every successor was seen behind its pair.
pub proof fn law_followers_were_seen(
    windows: Seq<(Word, Word, Word)>,
    key: (Word, Word),
    word: Word,
)
    ensures
        followers(windows, key).contains(word) <==> exists|i: int|
            0 <= i < windows.len() && #[trigger] windows[i] == (key.0, key.1, word),
    decreases windows.len(),
{
    if windows.len() > 0 {
        let front = windows.drop_last();
        let last = windows.last();
        law_followers_were_seen(front, key, word);
        let before = followers(front, key);
        if followers(windows, key).contains(word) {
            let j = choose|j: int|
                0 <= j < followers(windows, key).len() && followers(windows, key)[j] == word;
            if (last.0, last.1) == key && j == before.len() {
                assert(windows[windows.len() - 1] == (key.0, key.1, word));
            } else {
                assert(before[j] == word);
                let i = choose|i: int|
                    0 <= i < front.len() && #[trigger] front[i] == (key.0, key.1, word);
                assert(windows[i] == (key.0, key.1, word));
            }
        }
        if exists|i: int| 0 <= i < windows.len() && #[trigger] windows[i] == (key.0, key.1, word) {
            let i = choose|i: int|
                0 <= i < windows.len() && #[trigger] windows[i] == (key.0, key.1, word);
            if i == windows.len() - 1 {
                assert(followers(windows, key)[before.len() as int] == word);
            } else {
                assert(front[i] == (key.0, key.1, word));
                let j = choose|j: int| 0 <= j < before.len() && before[j] == word;
                assert(followers(windows, key)[j] == word);
            }
        }
    }
}

/// A batch of three words or more has each of its windows recorded once, in
/// order, behind the windows that begin in the carried words.
pub proof fn law_feed_records_every_window(model: Model, batch: Seq<Word>)
    requires
        batch.len() >= 3,
    ensures
        trigrams(batch).len() == batch.len() - 2,
        forall|i: int|
            0 <= i < batch.len() - 2 ==> #[trigger] trigrams(batch)[i] == (
                batch[i],
                batch[i + 1],
                batch[i + 2],
            ),
        ({
            let joint = boundary(model.history) + batch;
            let carried = trigrams(joint).take(boundary(model.history).len() as int);
            &&& trigrams(joint) == carried + trigrams(batch)
            &&& fed(model, batch).table == record_all(
                record_all(model.table, carried),
                trigrams(batch),
            )
        }),
{
    let joint = boundary(model.history) + batch;
    let carried = trigrams(joint).take(boundary(model.history).len() as int);
    assert(trigrams(joint) =~= carried + trigrams(batch));
    lemma_record_all_concat(model.table, carried, trigrams(batch));
}

/// A model that has been fed fewer than three words records of a batch its
/// windows and nothing else.
pub proof fn law_first_feed_records_its_windows(model: Model, batch: Seq<Word>)
    requires
        model.history.len() < 3,
    ensures
        fed(model, batch).table == record_all(model.table, trigrams(batch)),
{
    assert(boundary(model.history) + batch =~= batch);
}

/// An empty batch changes nothing while the history holds fewer than three
/// words.
pub proof fn law_empty_feed_of_short_history(model: Model)
    requires
        model.history.len() < 3,
    ensures
        fed(model, Seq::empty()) == model,
{
    let batch = Seq::<Word>::empty();
    assert(boundary(model.history) + batch =~= batch);
    assert(model.history + batch =~= model.history);
}

/// An empty batch fed to a history of three words or more records the last
/// window of the history once more, and nothing else.
pub proof fn law_empty_feed_repeats_last_window(model: Model)
    requires
        model.history.len() >= 3,
    ensures
        fed(model, Seq::empty()).history == model.history,
        fed(model, Seq::empty()).table == record(
            model.table,
            (model.history[model.history.len() - 3], model.history[model.history.len() - 2]),
            model.history.last(),
        ),
{
    let batch = Seq::<Word>::empty();
    let carried = boundary(model.history);
    let windows = trigrams(carried + batch);
    assert(carried + batch =~= carried);
    assert(model.history + batch =~= model.history);
    assert(windows.drop_last() =~= Seq::<(Word, Word, Word)>::empty());
    assert(record_all(model.table, windows.drop_last()) == model.table);
}

/// While fewer than three words have been fed and no window crosses the join,
/// feeding in two calls is feeding in one.
pub proof fn law_split_feed_of_short_corpus(model: Model, first: Seq<Word>, second: Seq<Word>)
    requires
        model.history.len() + first.len() < 3,
        first.len() == 0 || first.len() + second.len() < 3,
    ensures
        fed(fed(model, first), second) == fed(model, first + second),
{
    let once = fed(model, first);
    assert(boundary(model.history) + first =~= first);
    assert(boundary(model.history) + (first + second) =~= first + second);
    assert(boundary(once.history) + second =~= second);
    assert(once.history + second =~= model.history + (first + second));
    assert(trigrams(first) =~= Seq::<(Word, Word, Word)>::empty());
    if first.len() == 0 {
        assert(first + second =~= second);
    } else {
        assert(trigrams(second) =~= trigrams(first + second));
    }
}

/// Once three words stand before the join, feeding in two calls records what
/// feeding in one call records, and the last window before the join a second
/// time: the carried words bring it along.
pub proof fn law_split_feed_repeats_joining_window(
    model: Model,
    first: Seq<Word>,
    second: Seq<Word>,
)
    requires
        model.history.len() >= 3 || first.len() >= 3,
    ensures
        fed(fed(model, first), second).history == fed(model, first + second).history,
        ({
            let joint = boundary(model.history) + first;
            let last = trigrams(joint).last();
            let crossing = trigrams(joint.skip(joint.len() - 2) + second);
            &&& fed(model, first + second).table == record_all(fed(model, first).table, crossing)
            &&& fed(fed(model, first), second).table == record_all(
                record(fed(model, first).table, (last.0, last.1), last.2),
                crossing,
            )
        }),
{
    let once = fed(model, first);
    let joint = boundary(model.history) + first;
    let before = trigrams(joint);
    let last = before.last();
    let crossing = trigrams(joint.skip(joint.len() - 2) + second);
    assert(once.history + second =~= model.history + (first + second));
    assert(boundary(model.history) + (first + second) =~= joint + second);
    assert(trigrams(joint + second) =~= before + crossing);
    lemma_record_all_concat(model.table, before, crossing);
    assert(boundary(once.history) =~= joint.skip(joint.len() - 3));
    assert(trigrams(boundary(once.history) + second) =~= seq![last] + crossing);
    lemma_record_all_concat(once.table, seq![last], crossing);
    assert(seq![last].drop_last() =~= Seq::<(Word, Word, Word)>::empty());
    assert(record_all(once.table, seq![last]) == record(once.table, (last.0, last.1), last.2)) by {
        assert(seq![last].last() == last);
        assert(record_all(once.table, seq![last].drop_last()) == once.table);
    }
}

/// Once three words stand before the join, feeding in two calls and feeding in
/// one call end with the same keys and, for each key, the same words among its
/// successors.
pub proof fn law_split_feed_same_transitions(
    model: Model,
    first: Seq<Word>,
    second: Seq<Word>,
    key: (Word, Word),
    word: Word,
)
    requires
        model.history.len() >= 3 || first.len() >= 3,
    ensures
        fed(fed(model, first), second).table.contains_key(key) <==> fed(
            model,
            first + second,
        ).table.contains_key(key),
        successors(fed(fed(model, first), second).table, key).contains(word) <==> successors(
            fed(model, first + second).table,
            key,
        ).contains(word),
{
    let once = fed(model, first);
    let joint = boundary(model.history) + first;
    let before = trigrams(joint);
    let last = before.last();
    let repeated = (last.0, last.1);
    let crossing = trigrams(joint.skip(joint.len() - 2) + second);
    let again = record(once.table, repeated, last.2);
    law_split_feed_repeats_joining_window(model, first, second);
    law_store_holds_what_was_seen(again, crossing, key);
    law_store_holds_what_was_seen(once.table, crossing, key);
    law_store_holds_what_was_seen(model.table, before, repeated);
    law_followers_were_seen(before, repeated, last.2);
    assert(before[before.len() - 1] == (repeated.0, repeated.1, last.2));
    let held = successors(once.table, repeated);
    let at = choose|at: int|
        0 <= at < followers(before, repeated).len() && followers(before, repeated)[at] == last.2;
    assert(held[successors(model.table, repeated).len() + at] == last.2);
    assert(once.table.contains_key(repeated));
    let tail = followers(crossing, key);
    let two = successors(again, key) + tail;
    let one = successors(once.table, key) + tail;
    if key == repeated {
        assert(successors(again, key) == held.push(last.2));
        if two.contains(word) {
            let j = choose|j: int| 0 <= j < two.len() && two[j] == word;
            if j < held.len() {
                assert(one[j] == word);
            } else if j == held.len() {
                assert(one[successors(model.table, repeated).len() + at] == word);
            } else {
                assert(one[j - 1] == word);
            }
        }
        if one.contains(word) {
            let j = choose|j: int| 0 <= j < one.len() && one[j] == word;
            if j < held.len() {
                assert(two[j] == word);
            } else {
                assert(two[j + 1] == word);
            }
        }
    } else {
        assert(successors(again, key) == successors(once.table, key));
    }
}

/// The history is every batch that was fed, in the order of feeding: nothing
/// is dropped and nothing changes place.
pub proof fn law_history_is_every_batch(model: Model, batches: Seq<Seq<Word>>)
    ensures
        fed_each(model, batches).history == model.history + batches.flatten(),
    decreases batches.len(),
{
    if batches.len() == 0 {
        assert(model.history + batches.flatten() =~= model.history);
    } else {
        let front = batches.drop_last();
        law_history_is_every_batch(model, front);
        front.lemma_flatten_push(batches.last());
        assert(front.push(batches.last()) =~= batches);
        assert((model.history + front.flatten()) + batches.last() =~= model.history + (
        front.flatten() + batches.last()));
    }
}

/// A feed never shortens the history: what was there stays in front.
pub proof fn law_history_only_grows(model: Model, batch: Seq<Word>)
    ensures
        fed(model, batch).history.len() == model.history.len() + batch.len(),
        fed(model, batch).history.take(model.history.len() as int) == model.history,
{
    assert(fed(model, batch).history.take(model.history.len() as int) =~= model.history);
}

/// A walk has at most `size` words, and at least its first where `size` is
/// not zero.
pub proof fn law_walk_length(table: Table, first: Word, second: Word, draws: Seq<u64>, size: nat)
    ensures
        walk(table, first, second, draws, size).len() <= size,
        size >= 1 ==> walk(table, first, second, draws, size).len() >= 1 && walk(
            table,
            first,
            second,
            draws,
            size,
        )[0] == first,
    decreases size,
{
    if size > 0 {
        let choices = successors(table, (first, second));
        if choices.len() > 0 && draws.len() > 0 {
            law_walk_length(
                table,
                second,
                pick(choices, draws[0]),
                draws.drop_first(),
                (size - 1) as nat,
            );
        }
    }
}

/// Whether each word of `words` from the third on is one of the successors that
/// `table` holds for the two words before it.
pub open spec fn follows_table(table: Table, words: Seq<Word>) -> bool {
    forall|i: int|
        0 <= i && i + 2 < words.len() ==> successors(
            table,
            (#[trigger] words[i], words[i + 1]),
        ).contains(words[i + 2])
}

/// A draw picks one of the choices.
pub proof fn law_pick_is_a_choice(choices: Seq<Word>, draw: u64)
    requires
        choices.len() > 0,
    ensures
        choices.contains(pick(choices, draw)),
{
    lemma_mod_pos_bound(draw as int, choices.len() as int);
    let at = (draw as int) % (choices.len() as int);
    assert(choices[at] == pick(choices, draw));
}

/// Each word of a walk from the third on is a recorded successor of the two
/// words before it, and the second word is the second of the starting pair.
pub proof fn law_walk_follows_table(
    table: Table,
    first: Word,
    second: Word,
    draws: Seq<u64>,
    size: nat,
)
    ensures
        walk(table, first, second, draws, size).len() >= 2 ==> walk(
            table,
            first,
            second,
            draws,
            size,
        )[1] == second,
        follows_table(table, walk(table, first, second, draws, size)),
    decreases size,
{
    let words = walk(table, first, second, draws, size);
    let choices = successors(table, (first, second));
    if size > 0 && choices.len() > 0 && draws.len() > 0 {
        let next = pick(choices, draws[0]);
        let rest = walk(table, second, next, draws.drop_first(), (size - 1) as nat);
        law_walk_follows_table(table, second, next, draws.drop_first(), (size - 1) as nat);
        law_walk_length(table, second, next, draws.drop_first(), (size - 1) as nat);
        law_pick_is_a_choice(choices, draws[0]);
        assert(words == seq![first] + rest);
        assert(words.len() == rest.len() + 1);
        assert(words[0] == first);
        assert forall|i: int| 0 <= i && i + 2 < words.len() implies successors(
            table,
            (#[trigger] words[i], words[i + 1]),
        ).contains(words[i + 2]) by {
            assert(words[i + 1] == rest[i]);
            assert(words[i + 2] == rest[i + 1]);
            if i == 0 {
                assert(rest[0] == second);
                assert(rest[1] == next);
            } else {
                assert(words[i] == rest[i - 1]);
                assert(successors(table, (rest[i - 1], rest[i])).contains(rest[i + 1]));
            }
        }
    }
}

/// Whether the walk `words`, begun at a pair whose second word is `second`,
/// could not go on: `coming` was to be its next word, and the pair of its last
/// word and `coming` has no successor.
pub open spec fn stopped_before(
    table: Table,
    words: Seq<Word>,
    second: Word,
    coming: Word,
) -> bool {
    &&& successors(table, (words.last(), coming)).len() == 0
    &&& if words.len() >= 2 {
        successors(table, (words[words.len() - 2], words.last())).contains(coming)
    } else {
        coming == second
    }
}

/// A walk that has a draw for every step ends before `size` words only at a
/// pair without successors: its last word and the word that was to come next.
pub proof fn law_walk_ends_at_unknown_pair(
    table: Table,
    first: Word,
    second: Word,
    draws: Seq<u64>,
    size: nat,
)
    requires
        draws.len() >= size,
        walk(table, first, second, draws, size).len() < size,
    ensures
        exists|coming: Word| #[trigger]
            stopped_before(table, walk(table, first, second, draws, size), second, coming),
    decreases size,
{
    let words = walk(table, first, second, draws, size);
    let choices = successors(table, (first, second));
    if choices.len() == 0 {
        assert(stopped_before(table, words, second, second));
    } else {
        let next = pick(choices, draws[0]);
        let rest = walk(table, second, next, draws.drop_first(), (size - 1) as nat);
        assert(words == seq![first] + rest);
        law_walk_length(table, second, next, draws.drop_first(), (size - 1) as nat);
        law_walk_follows_table(table, second, next, draws.drop_first(), (size - 1) as nat);
        law_walk_ends_at_unknown_pair(table, second, next, draws.drop_first(), (size - 1) as nat);
        let coming = choose|coming: Word| #[trigger] stopped_before(table, rest, next, coming);
        assert(words.last() == rest.last());
        if rest.len() >= 2 {
            assert(words[words.len() - 2] == rest[rest.len() - 2]);
        } else {
            assert(words[words.len() - 2] == first);
            assert(rest[0] == second);
            law_pick_is_a_choice(choices, draws[0]);
        }
        assert(stopped_before(table, words, second, coming));
    }
}

/// What a model generates has at most `size` words, and at least one where
/// `size` is not zero.
pub proof fn law_generated_length(model: Model, size: nat, words: Seq<Word>)
    requires
        can_generate(model, size, words),
    ensures
        words.len() <= size,
        size >= 1 ==> words.len() >= 1,
{
    let (start, draws) = choose|start: int, draws: Seq<u64>|
        0 <= start <= model.history.len() - 3 && draws.len() >= size && words == #[trigger] walk(
            model.table,
            model.history[start],
            model.history[start + 1],
            draws,
            size,
        );
    law_walk_length(model.table, model.history[start], model.history[start + 1], draws, size);
}

/// In what a model generates, the first two words are neighbours in its
/// history, and each later word is a recorded successor of the two words
/// before it.
pub proof fn law_generated_follows_table(model: Model, size: nat, words: Seq<Word>)
    requires
        can_generate(model, size, words),
    ensures
        size >= 1 ==> exists|start: int|
            0 <= start <= model.history.len() - 3 && words[0] == #[trigger] model.history[start]
                && (words.len() >= 2 ==> words[1] == model.history[start + 1]),
        follows_table(model.table, words),
{
    let (start, draws) = choose|start: int, draws: Seq<u64>|
        0 <= start <= model.history.len() - 3 && draws.len() >= size && words == #[trigger] walk(
            model.table,
            model.history[start],
            model.history[start + 1],
            draws,
            size,
        );
    law_walk_length(model.table, model.history[start], model.history[start + 1], draws, size);
    law_walk_follows_table(
        model.table,
        model.history[start],
        model.history[start + 1],
        draws,
        size,
    );
}

/// The windows that feeding `batches` to `model` records, batch by batch.
pub open spec fn windows_fed(model: Model, batches: Seq<Seq<Word>>) -> Seq<(Word, Word, Word)>
    decreases batches.len(),
{
    if batches.len() == 0 {
        Seq::empty()
    } else {
        let before = batches.drop_last();
        windows_fed(model, before) + trigrams(
            boundary(fed_each(model, before).history) + batches.last(),
        )
    }
}

/// After any feeds the store holds what it held before and the windows that
/// were fed, and nothing else: a key is there exactly if it was there before
/// or begins a window that was fed, and its successors are those it had, then
/// the third words of the windows that begin with it.
pub proof fn law_table_is_what_was_fed(model: Model, batches: Seq<Seq<Word>>, key: (Word, Word))
    ensures
        fed_each(model, batches).table == record_all(model.table, windows_fed(model, batches)),
        fed_each(model, batches).table.contains_key(key) <==> model.table.contains_key(key)
            || seen(windows_fed(model, batches), key),
        successors(fed_each(model, batches).table, key) == successors(model.table, key)
            + followers(windows_fed(model, batches), key),
    decreases batches.len(),
{
    if batches.len() > 0 {
        let before = batches.drop_last();
        law_table_is_what_was_fed(model, before, key);
        lemma_record_all_concat(
            model.table,
            windows_fed(model, before),
            trigrams(boundary(fed_each(model, before).history) + batches.last()),
        );
    }
    law_store_holds_what_was_seen(model.table, windows_fed(model, batches), key);
}

/// Draws that go once round the successors pick each of them once: a word
/// is picked as often as it stands among the successors.
pub proof fn law_pick_goes_round(choices: Seq<Word>, round: nat, place: nat)
    requires
        place < choices.len(),
        round * choices.len() + place <= u64::MAX,
    ensures
        pick(choices, (round * choices.len() + place) as u64) == choices[place as int],
{
    let count = choices.len() as int;
    lemma_mod_multiples_vanish(round as int, place as int, count);
    lemma_small_mod(place, choices.len());
    assert(round * choices.len() + place == count * round + place) by (nonlinear_arith)
        requires
            count == choices.len(),
    ;
}

/// Each word of a line has a character, and none that is a separator.
pub proof fn law_tokens_are_words(line: Seq<char>, i: int)
    requires
        0 <= i < tokens(line).len(),
    ensures
        tokens(line)[i].len() > 0,
        forall|j: int|
            0 <= j < tokens(line)[i].len() ==> !is_separator(#[trigger] tokens(line)[i][j]),
    decreases line.len(),
{
    lemma_run_length(line);
    if line.len() > 0 {
        if is_separator(line[0]) {
            law_tokens_are_words(line.drop_first(), i);
        } else if i > 0 {
            let run = run_length(line) as int;
            assert(tokens(line)[i] == tokens(line.skip(run))[i - 1]);
            law_tokens_are_words(line.skip(run), i - 1);
        }
    }
}

} // verus!
