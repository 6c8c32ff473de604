//! What holds of every model: ingestion only ever adds, a refused sentence
//! changes nothing, and every generated sentence is a walk of bounded length.

use crate::casing::LetterCase;
use crate::chain::{
    draw_at, last_context, lemma_path_push, lemma_path_start, pick, Context, ModelView, Token,
};
use crate::normalize::normalized_all;
use crate::text::{
    is_separator, is_word, join_words, lemma_run_is_word, lemma_run_len_bound, lemma_split_join,
    run_len, split_words,
};
use regex::Regex;
use vstd::prelude::*;

verus! {

/// Recording a follower keeps the openings, keeps every follower that was
/// there, and keeps the model well-formed.
pub proof fn lemma_append_successor_extends(m: ModelView, c: Context, token: Token)
    ensures
        m.append_successor(c, token).seeds == m.seeds,
        m.append_successor(c, token).extends(m),
        m.append_successor(c, token).has_context(c),
        m.append_successor(c, token).chains[c].last() == token,
        m.wf() ==> m.append_successor(c, token).wf(),
{
    let after = m.append_successor(c, token);
    assert forall|k: Context| #[trigger] m.has_context(k) implies after.has_context(k)
        && m.chains[k].is_prefix_of(after.chains[k]) by {
        if k == c {
            assert(m.chains[c].push(token).subrange(0, m.chains[c].len() as int) == m.chains[c]);
        }
    }
}

/// Holding everything of an earlier model carries over: what extends a model
/// that extends a third one extends the third.
pub proof fn lemma_extends_transitive(a: ModelView, b: ModelView, c: ModelView)
    requires
        c.extends(b),
        b.extends(a),
    ensures
        c.extends(a),
{
    assert(a.seeds.is_prefix_of(c.seeds)) by {
        assert(a.seeds == c.seeds.subrange(0, a.seeds.len() as int));
    }
    assert forall|k: Context| #[trigger] a.has_context(k) implies c.has_context(k)
        && a.chains[k].is_prefix_of(c.chains[k]) by {
        assert(b.has_context(k));
        assert(a.chains[k] == c.chains[k].subrange(0, a.chains[k].len() as int));
    }
}

/// Indexing triples of tokens keeps the openings and only ever adds
/// followers.
pub proof fn lemma_link_extends(m: ModelView, tokens: Seq<Token>, n: nat)
    ensures
        m.link(tokens, n).seeds == m.seeds,
        m.link(tokens, n).extends(m),
        m.wf() ==> m.link(tokens, n).wf(),
    decreases n,
{
    if n > 0 {
        let before = m.link(tokens, (n - 1) as nat);
        lemma_link_extends(m, tokens, (n - 1) as nat);
        lemma_append_successor_extends(
            before,
            (tokens[n - 1], tokens[n as int]),
            tokens[(n + 1) as int],
        );
        lemma_extends_transitive(m, before, m.link(tokens, n));
    }
}

/// A sentence of two or more tokens adds exactly one opening, its first two
/// tokens, behind the openings that were there, and takes nothing out of the
/// table: every context stays, and its followers stay at the front of its
/// list.
pub proof fn lemma_ingest_accepted(m: ModelView, tokens: Seq<Token>)
    requires
        ModelView::accepts(tokens),
    ensures
        m.ingest(tokens).seeds == m.seeds.push((tokens[0], tokens[1])),
        m.ingest(tokens).seeds.len() == m.seeds.len() + 1,
        m.ingest(tokens).extends(m),
{
    let seeded = m.record_seed((tokens[0], tokens[1]));
    lemma_link_extends(seeded, tokens, (tokens.len() - 2) as nat);
    assert(seeded.extends(m)) by {
        assert(m.seeds == seeded.seeds.subrange(0, m.seeds.len() as int));
    }
    lemma_extends_transitive(m, seeded, m.ingest(tokens));
}

/// A sentence of fewer than two tokens is refused and changes nothing.
pub proof fn lemma_ingest_refused(m: ModelView, tokens: Seq<Token>)
    requires
        tokens.len() < 2,
    ensures
        !ModelView::accepts(tokens),
        m.ingest(tokens) == m,
{
}

/// Ingestion never takes anything out, and keeps the model well-formed.
pub proof fn lemma_ingest_extends(m: ModelView, tokens: Seq<Token>)
    ensures
        m.ingest(tokens).extends(m),
        m.wf() ==> m.ingest(tokens).wf(),
{
    if ModelView::accepts(tokens) {
        lemma_ingest_accepted(m, tokens);
        lemma_link_extends(
            m.record_seed((tokens[0], tokens[1])),
            tokens,
            (tokens.len() - 2) as nat,
        );
    } else {
        assert(m.seeds == m.seeds.subrange(0, m.seeds.len() as int));
        assert forall|c: Context| #[trigger] m.has_context(c) implies m.chains[c].is_prefix_of(
            m.chains[c],
        ) by {
            assert(m.chains[c] == m.chains[c].subrange(0, m.chains[c].len() as int));
        }
    }
}

/// Ingesting sentences one after another never takes anything out, adds one
/// opening for each accepted sentence and none for a refused one, and keeps
/// the model well-formed.
pub proof fn lemma_ingest_all_extends(m: ModelView, sentences: Seq<Seq<Token>>)
    ensures
        m.ingest_all(sentences).extends(m),
        m.ingest_all(sentences).seeds.len() == m.seeds.len() + sentences.filter(
            |tokens: Seq<Token>| ModelView::accepts(tokens),
        ).len(),
        m.wf() ==> m.ingest_all(sentences).wf(),
    decreases sentences.len(),
{
    let accepted = |tokens: Seq<Token>| ModelView::accepts(tokens);
    if sentences.len() == 0 {
        lemma_ingest_extends(m, Seq::empty());
        assert(sentences.filter(accepted).len() == 0) by {
            reveal(Seq::filter);
        }
    } else {
        let front = sentences.drop_last();
        let before = m.ingest_all(front);
        lemma_ingest_all_extends(m, front);
        lemma_ingest_extends(before, sentences.last());
        lemma_extends_transitive(m, before, m.ingest_all(sentences));
        if ModelView::accepts(sentences.last()) {
            lemma_ingest_accepted(before, sentences.last());
        }
        assert(sentences.filter(accepted).len() == front.filter(accepted).len() + if accepted(
            sentences.last(),
        ) {
            1int
        } else {
            0int
        }) by {
            reveal(Seq::filter);
        }
    }
}

/// The model that nothing was ingested into is well-formed and generates
/// nothing, whatever the length asked for and whatever the draws.
pub proof fn lemma_empty_generates_nothing(max_length: int, draws: Seq<usize>)
    ensures
        ModelView::empty().wf(),
        ModelView::empty().sentence(max_length, draws) is None,
{
}

/// Walking on from a path gives a walk that holds at most `steps` words
/// more.
pub proof fn lemma_extend_is_walk(
    m: ModelView,
    words: Seq<Token>,
    steps: nat,
    draws: Seq<usize>,
    used: int,
)
    requires
        m.wf(),
        m.is_path(words),
    ensures
        m.is_walk((words.len() + steps) as int, m.extend(words, steps, draws, used)),
    decreases steps,
{
    if steps > 0 && m.has_context(last_context(words)) {
        let followers = m.chains[last_context(words)];
        let d = draw_at(draws, used);
        assert(followers.len() > 0);
        assert(0 <= d % (followers.len() as int) < followers.len());
        let next = pick(followers, d);
        assert(followers.contains(next));
        lemma_path_push(m, words, next);
        lemma_extend_is_walk(m, words.push(next), (steps - 1) as nat, draws, used + 1);
    }
}

/// Whatever the draws, what they select from a model with an opening is a
/// walk of the model.
pub proof fn lemma_walk_is_walk(m: ModelView, max_length: int, draws: Seq<usize>)
    requires
        m.wf(),
        m.seeds.len() > 0,
        max_length >= 2,
    ensures
        m.is_walk(max_length, m.walk(max_length, draws)),
{
    let d = draw_at(draws, 0);
    assert(0 <= d % (m.seeds.len() as int) < m.seeds.len());
    let seed = pick(m.seeds, d);
    assert(m.seeds.contains(seed));
    lemma_path_start(m, seed);
    lemma_extend_is_walk(m, seq![seed.0, seed.1], (max_length - 2) as nat, draws, 1);
}

/// A walk holds at least two words and at most as many as were asked for.
pub proof fn lemma_walk_length(m: ModelView, max_length: int, words: Seq<Token>)
    requires
        m.is_walk(max_length, words),
    ensures
        2 <= words.len() <= max_length,
{
}

/// Every word of a path over a model that holds only words is a word.
pub proof fn lemma_path_of_words(m: ModelView, words: Seq<Token>)
    requires
        m.holds_words(),
        m.is_path(words),
    ensures
        forall|i: int| 0 <= i < words.len() ==> is_word(#[trigger] words[i]),
{
    let seed = (words[0], words[1]);
    let at = choose|i: int| 0 <= i < m.seeds.len() && m.seeds[i] == seed;
    assert(is_word(m.seeds[at].0) && is_word(m.seeds[at].1));
    assert forall|i: int| 0 <= i < words.len() implies is_word(#[trigger] words[i]) by {
        if i >= 2 {
            assert(m.follows(words, i));
            let c = (words[i - 2], words[i - 1]);
            let k = choose|k: int| 0 <= k < m.chains[c].len() && m.chains[c][k] == words[i];
            assert(is_word(m.chains[c][k]));
        }
    }
}

/// Where a model holds only words, the sentence of a walk splits back into
/// the words of the walk: it holds at least two words and at most as many as
/// were asked for.
pub proof fn lemma_sentence_word_count(m: ModelView, max_length: int, words: Seq<Token>)
    requires
        m.holds_words(),
        m.is_walk(max_length, words),
    ensures
        split_words(join_words(words)) == words,
        2 <= split_words(join_words(words)).len() <= max_length,
{
    lemma_path_of_words(m, words);
    lemma_split_join(words);
}

/// Every token that splitting yields is a word: not empty, and free of
/// separators.
pub proof fn lemma_split_words_are_words(s: Seq<char>)
    ensures
        forall|i: int| 0 <= i < split_words(s).len() ==> is_word(#[trigger] split_words(s)[i]),
    decreases s.len(),
{
    if s.len() == 0 {
        assert(split_words(s).len() == 0);
    } else if is_separator(s[0]) {
        lemma_split_words_are_words(s.drop_first());
        assert(split_words(s) == split_words(s.drop_first()));
    } else {
        let n = run_len(s) as int;
        lemma_run_len_bound(s);
        lemma_run_is_word(s);
        lemma_split_words_are_words(s.skip(n));
        let rest = split_words(s.skip(n));
        assert(split_words(s) == seq![s.take(n)] + rest);
        assert forall|i: int| 0 <= i < split_words(s).len() implies is_word(
            #[trigger] split_words(s)[i],
        ) by {
            if i > 0 {
                assert(split_words(s)[i] == rest[i - 1]);
            } else {
                assert(split_words(s)[0] == s.take(n));
            }
        }
    }
}

/// With no filter, no custom step and letters left as they are, tokens come
/// out of normalisation as they went in.
pub proof fn lemma_plain_settings_keep_tokens(tokens: Seq<Token>)
    ensures
        normalized_all(Seq::<Regex>::empty(), None, LetterCase::Any, tokens) == tokens,
{
    assert(normalized_all(Seq::<Regex>::empty(), None, LetterCase::Any, tokens) =~= tokens);
}

/// Recording a word as a follower in a model that holds only words leaves a
/// model that holds only words.
pub proof fn lemma_append_successor_holds_words(m: ModelView, c: Context, token: Token)
    requires
        m.holds_words(),
        is_word(token),
    ensures
        m.append_successor(c, token).holds_words(),
{
    let after = m.append_successor(c, token);
    assert forall|k: Context, i: int|
        after.has_context(k) && 0 <= i < after.chains[k].len() implies is_word(
        #[trigger] after.chains[k][i],
    ) by {
        if k == c {
            if m.has_context(c) && i < m.chains[c].len() {
                assert(after.chains[k][i] == m.chains[c][i]);
            }
        } else {
            assert(after.chains[k][i] == m.chains[k][i]);
        }
    }
}

/// Indexing triples of words in a model that holds only words leaves a model
/// that holds only words.
pub proof fn lemma_link_holds_words(m: ModelView, tokens: Seq<Token>, n: nat)
    requires
        m.holds_words(),
        n + 2 <= tokens.len(),
        forall|i: int| 0 <= i < tokens.len() ==> is_word(#[trigger] tokens[i]),
    ensures
        m.link(tokens, n).holds_words(),
    decreases n,
{
    if n > 0 {
        lemma_link_holds_words(m, tokens, (n - 1) as nat);
        lemma_append_successor_holds_words(
            m.link(tokens, (n - 1) as nat),
            (tokens[n - 1], tokens[n as int]),
            tokens[(n + 1) as int],
        );
    }
}

/// A model that holds only words still does after a sentence of words was
/// ingested.
pub proof fn lemma_ingest_holds_words(m: ModelView, tokens: Seq<Token>)
    requires
        m.holds_words(),
        forall|i: int| 0 <= i < tokens.len() ==> is_word(#[trigger] tokens[i]),
    ensures
        m.ingest(tokens).holds_words(),
{
    if ModelView::accepts(tokens) {
        let seeded = m.record_seed((tokens[0], tokens[1]));
        assert forall|i: int| 0 <= i < seeded.seeds.len() implies is_word(
            (#[trigger] seeded.seeds[i]).0,
        ) && is_word(seeded.seeds[i].1) by {
            if i < m.seeds.len() {
                assert(seeded.seeds[i] == m.seeds[i]);
            }
        }
        lemma_link_holds_words(seeded, tokens, (tokens.len() - 2) as nat);
    }
}

/// A model that holds only words and has plain settings still holds only
/// words after any sentence was fed in: what is ingested are the words of the
/// sentence.
pub proof fn lemma_plain_ingest_holds_words(m: ModelView, sentence: Seq<char>)
    requires
        m.holds_words(),
    ensures
        m.ingest(
            normalized_all(Seq::<Regex>::empty(), None, LetterCase::Any, split_words(sentence)),
        ) == m.ingest(split_words(sentence)),
        m.ingest(split_words(sentence)).holds_words(),
{
    lemma_plain_settings_keep_tokens(split_words(sentence));
    lemma_split_words_are_words(sentence);
    lemma_ingest_holds_words(m, split_words(sentence));
}

} // verus!
