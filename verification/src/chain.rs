//! The mathematical model of a chain: what a model holds, what ingestion does
//! to it, and which sentences a walk over it can produce.

use crate::text::{is_word, join_words};
use vstd::prelude::*;

verus! {

/// A token as contracts see it: its characters.
pub type Token = Seq<char>;

/// Two consecutive tokens, the older first.
pub type Context = (Seq<char>, Seq<char>);

/// What a model holds.
pub struct ModelView {
    /// The opening contexts of the ingested sentences, one per sentence, in
    /// the order of ingestion.
    pub seeds: Seq<Context>,
    /// For every context seen with a follower, its followers in the order in
    /// which they were seen, repetitions kept.
    pub chains: Map<Context, Seq<Token>>,
}

/// The entry of `items` that a draw selects: the draw counts around the
/// sequence.
pub open spec fn pick<T>(items: Seq<T>, draw: int) -> T {
    items[draw % (items.len() as int)]
}

/// The draw at position `k`, and 0 where the draws have run out.
pub open spec fn draw_at(draws: Seq<usize>, k: int) -> int {
    if 0 <= k < draws.len() {
        draws[k] as int
    } else {
        0
    }
}

/// The two newest words, the older first.
pub open spec fn last_context(words: Seq<Token>) -> Context {
    (words[words.len() - 2], words[words.len() - 1])
}

impl ModelView {
    /// The model that nothing was ingested into.
    pub open spec fn empty() -> ModelView {
        ModelView { seeds: Seq::empty(), chains: Map::empty() }
    }

    /// Every context of the table has at least one follower.
    pub open spec fn wf(self) -> bool {
        forall|c: Context| #[trigger] self.chains.dom().contains(c) ==> self.chains[c].len() > 0
    }

    /// Whether the table has an entry for `c`.
    pub open spec fn has_context(self, c: Context) -> bool {
        self.chains.dom().contains(c)
    }

    /// The model with `c` recorded as one more opening.
    pub open spec fn record_seed(self, c: Context) -> ModelView {
        ModelView { seeds: self.seeds.push(c), chains: self.chains }
    }

    /// The model with `token` seen once more after `c`: appended to the entry
    /// of `c`, which is created where there was none.
    pub open spec fn append_successor(self, c: Context, token: Token) -> ModelView {
        ModelView {
            seeds: self.seeds,
            chains: self.chains.insert(
                c,
                if self.has_context(c) {
                    self.chains[c].push(token)
                } else {
                    seq![token]
                },
            ),
        }
    }

    /// The model after the first `n` triples of consecutive tokens were
    /// indexed, in order.
    pub open spec fn link(self, tokens: Seq<Token>, n: nat) -> ModelView
        decreases n,
    {
        if n == 0 {
            self
        } else {
            self.link(tokens, (n - 1) as nat).append_successor(
                (tokens[n - 1], tokens[n as int]),
                tokens[(n + 1) as int],
            )
        }
    }

    /// Whether a sentence of these tokens is taken in: it needs two tokens.
    pub open spec fn accepts(tokens: Seq<Token>) -> bool {
        tokens.len() >= 2
    }

    /// The model after the tokens of one sentence were ingested. A sentence
    /// that is not accepted changes nothing; an accepted one adds its first
    /// two tokens as an opening and indexes every triple of consecutive
    /// tokens.
    pub open spec fn ingest(self, tokens: Seq<Token>) -> ModelView {
        if Self::accepts(tokens) {
            self.record_seed((tokens[0], tokens[1])).link(tokens, (tokens.len() - 2) as nat)
        } else {
            self
        }
    }

    /// The model after each sentence in turn was ingested.
    pub open spec fn ingest_all(self, sentences: Seq<Seq<Token>>) -> ModelView
        decreases sentences.len(),
    {
        if sentences.len() == 0 {
            self
        } else {
            self.ingest_all(sentences.drop_last()).ingest(sentences.last())
        }
    }

    /// Whether this model holds everything that `before` holds, in the same
    /// order: the openings of `before` come first among its openings, and
    /// the followers that `before` has for a context come first among its
    /// followers for that context.
    pub open spec fn extends(self, before: ModelView) -> bool {
        &&& before.seeds.is_prefix_of(self.seeds)
        &&& forall|c: Context| #[trigger]
            before.has_context(c) ==> self.has_context(c) && before.chains[c].is_prefix_of(
                self.chains[c],
            )
    }

    /// Whether every token that the model holds is a word: not empty, and
    /// free of separators.
    pub open spec fn holds_words(self) -> bool {
        &&& forall|i: int|
            0 <= i < self.seeds.len() ==> is_word((#[trigger] self.seeds[i]).0) && is_word(
                self.seeds[i].1,
            )
        &&& forall|c: Context, k: int|
            self.has_context(c) && 0 <= k < self.chains[c].len() ==> is_word(
                #[trigger] self.chains[c][k],
            )
    }

    /// Whether the word at position `i` is a recorded follower of the two
    /// words before it.
    pub open spec fn follows(self, words: Seq<Token>, i: int) -> bool {
        &&& self.has_context((words[i - 2], words[i - 1]))
        &&& self.chains[(words[i - 2], words[i - 1])].contains(words[i])
    }

    /// Whether `words` follows the model: it opens with a recorded opening,
    /// and every later word is a recorded follower of the two before it.
    pub open spec fn is_path(self, words: Seq<Token>) -> bool {
        &&& words.len() >= 2
        &&& self.seeds.contains((words[0], words[1]))
        &&& forall|i: int| 2 <= i < words.len() ==> #[trigger] self.follows(words, i)
    }

    /// Whether `words` can come out of a walk that may hold up to
    /// `max_length` words: it follows the model, holds no more than
    /// `max_length` words, and ends short of that only where its last two
    /// words have no follower.
    pub open spec fn is_walk(self, max_length: int, words: Seq<Token>) -> bool {
        &&& self.is_path(words)
        &&& words.len() <= max_length
        &&& words.len() < max_length ==> !self.has_context(last_context(words))
    }

    /// `words` walked on for up to `steps` more words, the next draw being
    /// the one at position `used`.
    pub open spec fn extend(self, words: Seq<Token>, steps: nat, draws: Seq<usize>, used: int)
        -> Seq<Token>
        decreases steps,
    {
        if steps == 0 || !self.has_context(last_context(words)) {
            words
        } else {
            self.extend(
                words.push(pick(self.chains[last_context(words)], draw_at(draws, used))),
                (steps - 1) as nat,
                draws,
                used + 1,
            )
        }
    }

    /// The walk that the draws select: the first draw picks the opening, each
    /// later one the next word, until `max_length` words are reached or the
    /// last two words have no follower.
    pub open spec fn walk(self, max_length: int, draws: Seq<usize>) -> Seq<Token> {
        let seed = pick(self.seeds, draw_at(draws, 0));
        self.extend(
            seq![seed.0, seed.1],
            if max_length > 2 {
                (max_length - 2) as nat
            } else {
                0
            },
            draws,
            1,
        )
    }

    /// The sentence that the draws select, and nothing where the model has no
    /// opening.
    pub open spec fn sentence(self, max_length: int, draws: Seq<usize>) -> Option<Seq<char>> {
        if self.seeds.len() == 0 {
            None
        } else {
            Some(join_words(self.walk(max_length, draws)))
        }
    }
}

/// A path stays one when a follower of its last two words is appended.
pub proof fn lemma_path_push(m: ModelView, words: Seq<Token>, next: Token)
    requires
        m.is_path(words),
        m.has_context(last_context(words)),
        m.chains[last_context(words)].contains(next),
    ensures
        m.is_path(words.push(next)),
{
    let longer = words.push(next);
    assert(longer[0] == words[0] && longer[1] == words[1]);
    assert forall|i: int| 2 <= i < longer.len() implies #[trigger] m.follows(longer, i) by {
        if i < words.len() {
            assert(m.follows(words, i));
        }
    }
}

/// The two words of an opening form a path.
pub proof fn lemma_path_start(m: ModelView, seed: Context)
    requires
        m.seeds.contains(seed),
    ensures
        m.is_path(seq![seed.0, seed.1]),
{
}

} // verus!
