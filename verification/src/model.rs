//! The model: openings, the table of followers, and the settings that every
//! ingested sentence goes through.

use crate::casing::LetterCase;
use crate::chain::{
    draw_at, last_context, lemma_path_push, lemma_path_start, pick, Context, ModelView, Token,
};
use crate::laws::{lemma_ingest_accepted, lemma_ingest_all_extends, lemma_ingest_extends};
use crate::normalize::{normalize, normalized_all, Transform};
use crate::random::random_below;
use crate::table::{
    distinct_contexts, entry_context, lemma_distinct_push, lemma_seed_views_push, lemma_table_at,
    lemma_table_dom, lemma_table_nonempty, lemma_table_update, nonempty_followers, seed_views,
    table,
};
use crate::text::{join, join_words, lemma_views_push, split_words, views, words};
use regex::Regex;
use vstd::prelude::*;

verus! {

/// A chain over sentences: the openings seen, the followers of every pair of
/// consecutive tokens, and the settings applied to what comes in.
pub struct Markov {
    /// Every way to begin a sentence that has been fed in.
    seeds: Vec<(String, String)>,
    /// Every context that has been fed in, with its followers.
    chains: Vec<(String, String, Vec<String>)>,
    /// What is done to the letters of incoming tokens.
    case: LetterCase,
    /// Expressions applied to incoming tokens in the order in which they were
    /// added; what they match is removed.
    filters: Vec<Regex>,
    /// A custom step applied to incoming tokens after the filters.
    transform: Option<Box<dyn Transform>>,
}

impl View for Markov {
    type V = ModelView;

    closed spec fn view(&self) -> ModelView {
        ModelView { seeds: seed_views(self.seeds@), chains: table(self.chains@) }
    }
}

impl Markov {
    #[verifier::type_invariant]
    spec fn inv(self) -> bool {
        &&& distinct_contexts(self.chains@)
        &&& nonempty_followers(self.chains@)
    }

    /// The filters, in the order in which they were added.
    pub closed spec fn filters(&self) -> Seq<Regex> {
        self.filters@
    }

    /// The custom step, if one is set.
    pub closed spec fn transform(&self) -> Option<Box<dyn Transform>> {
        self.transform
    }

    /// The letter-case policy.
    pub closed spec fn letter_case(&self) -> LetterCase {
        self.case
    }

    /// Whether two models normalise what comes in in the same way.
    pub open spec fn same_settings(self, other: Markov) -> bool {
        &&& self.filters() == other.filters()
        &&& self.transform() == other.transform()
        &&& self.letter_case() == other.letter_case()
    }

    /// The tokens that this model makes of the words of a sentence.
    pub open spec fn normalized(&self, tokens: Seq<Token>) -> Seq<Token> {
        normalized_all(self.filters(), self.transform(), self.letter_case(), tokens)
    }

    /// The tokens that this model makes of each of the sentences.
    pub open spec fn tokens_of(&self, sentences: Seq<&str>) -> Seq<Seq<Token>> {
        Seq::new(sentences.len(), |i: int| self.normalized(split_words(sentences[i]@)))
    }

    /// The position of the entry for the context `(first, second)`, if the
    /// table has one.
    fn position(&self, first: &String, second: &String) -> (at: Option<usize>)
        ensures
            at is Some <==> self@.has_context((first@, second@)),
            at is Some ==> at->0 < self.chains.len() && entry_context(self.chains@[at->0 as int])
                == (first@, second@),
    {
        let mut i: usize = 0;
        while i < self.chains.len()
            invariant
                i <= self.chains.len(),
                forall|k: int|
                    0 <= k < i ==> entry_context(#[trigger] self.chains[k]) != (first@, second@),
            decreases self.chains.len() - i,
        {
            if self.chains[i].0 == *first && self.chains[i].1 == *second {
                proof {
                    lemma_table_dom(self.chains@, (first@, second@));
                }
                return Some(i);
            }
            i += 1;
        }
        proof {
            lemma_table_dom(self.chains@, (first@, second@));
        }
        None
    }

    /// Whether the table has an entry for the context `(s1, s2)`.
    pub fn has_chain(&self, s1: &str, s2: &str) -> (found: bool)
        ensures
            found == self@.has_context((s1@, s2@)),
    {
        self.position(&s1.to_owned(), &s2.to_owned()).is_some()
    }

    /// Appends `word` to the followers of the context `(s1, s2)`. Where the
    /// table has no entry for that context, nothing changes.
    pub fn add_to_chain(&mut self, s1: &str, s2: &str, word: &str)
        ensures
            final(self)@ == if old(self)@.has_context((s1@, s2@)) {
                old(self)@.append_successor((s1@, s2@), word@)
            } else {
                old(self)@
            },
            final(self)@.wf(),
            final(self).same_settings(*old(self)),
    {
        proof {
            use_type_invariant(&*self);
            lemma_table_nonempty(self.chains@);
        }
        match self.position(&s1.to_owned(), &s2.to_owned()) {
            None => {},
            Some(i) => {
                let ghost before = self.chains@;
                let mut chains: Vec<(String, String, Vec<String>)> = Vec::new();
                core::mem::swap(&mut self.chains, &mut chains);
                chains[i].2.push(word.to_owned());
                proof {
                    lemma_table_at(before, i as int);
                    lemma_table_update(before, i as int, chains@[i as int]);
                    assert(chains@ == before.update(i as int, chains@[i as int]));
                    assert(views(chains@[i as int].2@) == views(before[i as int].2@).push(word@));
                    lemma_table_nonempty(chains@);
                }
                self.chains = chains;
            },
        }
    }

    /// Records that `next` was seen after the context `(s1, s2)`: it is
    /// appended to the followers of that context, whose entry is created
    /// where the table has none.
    pub fn add(&mut self, s1: &str, s2: &str, next: &str)
        ensures
            final(self)@ == old(self)@.append_successor((s1@, s2@), next@),
            final(self)@.wf(),
            final(self).same_settings(*old(self)),
    {
        if self.has_chain(s1, s2) {
            self.add_to_chain(s1, s2, next);
        } else {
            proof {
                use_type_invariant(&*self);
            }
            let ghost before = self.chains@;
            let mut followers: Vec<String> = Vec::new();
            followers.push(next.to_owned());
            let entry = (s1.to_owned(), s2.to_owned(), followers);
            proof {
                lemma_distinct_push(before, entry);
                assert(views(entry.2@) == seq![next@]);
                assert(before.push(entry).drop_last() == before);
                lemma_table_nonempty(before.push(entry));
            }
            let mut chains: Vec<(String, String, Vec<String>)> = Vec::new();
            core::mem::swap(&mut self.chains, &mut chains);
            chains.push(entry);
            self.chains = chains;
        }
    }

    /// Adds an expression to the filters that every incoming token goes
    /// through. It is applied after the filters added before it.
    pub fn add_filter(&mut self, reg: Regex)
        ensures
            final(self).filters() == old(self).filters().push(reg),
            final(self).transform() == old(self).transform(),
            final(self).letter_case() == old(self).letter_case(),
            final(self)@ == old(self)@,
            final(self)@.wf(),
    {
        proof {
            use_type_invariant(&*self);
            lemma_table_nonempty(self.chains@);
        }
        let mut filters: Vec<Regex> = Vec::new();
        core::mem::swap(&mut self.filters, &mut filters);
        filters.push(reg);
        self.filters = filters;
    }

    /// Sets the letter-case policy for what is fed in from now on.
    pub fn set_case(&mut self, case: LetterCase)
        ensures
            final(self).letter_case() == case,
            final(self).filters() == old(self).filters(),
            final(self).transform() == old(self).transform(),
            final(self)@ == old(self)@,
            final(self)@.wf(),
    {
        proof {
            use_type_invariant(&*self);
            lemma_table_nonempty(self.chains@);
        }
        self.case = case;
    }

    /// Sets the custom step for what is fed in from now on, in place of the
    /// one set before, if any.
    pub fn set_transform(&mut self, transform: Box<dyn Transform>)
        ensures
            final(self).transform() == Some(transform),
            final(self).filters() == old(self).filters(),
            final(self).letter_case() == old(self).letter_case(),
            final(self)@ == old(self)@,
            final(self)@.wf(),
    {
        proof {
            use_type_invariant(&*self);
            lemma_table_nonempty(self.chains@);
        }
        let wrapped = Some(transform);
        self.transform = wrapped;
    }

    /// Feeds in the tokens of one sentence as they are. A sentence of fewer
    /// than two tokens is refused and changes nothing. Of any other, the
    /// first two tokens are recorded as an opening, and every token from the
    /// third on as a follower of the two before it.
    pub fn ingest(&mut self, tokens: &Vec<String>) -> (accepted: bool)
        ensures
            accepted == ModelView::accepts(views(tokens@)),
            final(self)@ == old(self)@.ingest(views(tokens@)),
            accepted ==> final(self)@.seeds.len() == old(self)@.seeds.len() + 1,
            !accepted ==> final(self)@ == old(self)@,
            final(self)@.extends(old(self)@),
            final(self)@.wf(),
            final(self).same_settings(*old(self)),
    {
        proof {
            use_type_invariant(&*self);
            lemma_table_nonempty(self.chains@);
            lemma_ingest_extends(self@, views(tokens@));
        }
        if tokens.len() < 2 {
            return false;
        }
        proof {
            lemma_ingest_accepted(self@, views(tokens@));
            lemma_seed_views_push(self.seeds@, (tokens@[0], tokens@[1]));
        }
        let mut seeds: Vec<(String, String)> = Vec::new();
        core::mem::swap(&mut self.seeds, &mut seeds);
        seeds.push((tokens[0].clone(), tokens[1].clone()));
        self.seeds = seeds;
        let ghost seeded = old(self)@.record_seed((tokens@[0]@, tokens@[1]@));
        assert(self@ == seeded);
        let mut i: usize = 0;
        while i < tokens.len() - 2
            invariant
                tokens.len() >= 2,
                i <= tokens.len() - 2,
                self@ == seeded.link(views(tokens@), i as nat),
                self@.wf(),
                self.same_settings(*old(self)),
            decreases tokens.len() - i,
        {
            self.add(tokens[i].as_str(), tokens[i + 1].as_str(), tokens[i + 2].as_str());
            i += 1;
        }
        true
    }

    /// Feeds in one sentence: splits it into words, normalises each word
    /// (filters, then the custom step, then the letter case) and ingests the
    /// tokens. Returns whether the sentence was taken in, which asks for two
    /// words.
    pub fn pass_str(&mut self, sentence: &str) -> (accepted: bool)
        ensures
            accepted == ModelView::accepts(old(self).normalized(split_words(sentence@))),
            final(self)@ == old(self)@.ingest(old(self).normalized(split_words(sentence@))),
            accepted ==> final(self)@.seeds.len() == old(self)@.seeds.len() + 1,
            !accepted ==> final(self)@ == old(self)@,
            final(self)@.extends(old(self)@),
            final(self)@.wf(),
            final(self).same_settings(*old(self)),
    {
        let raw = words(sentence);
        let tokens = normalize(&self.filters, &self.transform, self.case, &raw);
        self.ingest(&tokens)
    }

    /// Feeds in the sentences one after another, each as `pass_str` does. A
    /// sentence that is refused does not keep the later ones out.
    pub fn pass(&mut self, sentences: Vec<&str>)
        ensures
            final(self)@ == old(self)@.ingest_all(old(self).tokens_of(sentences@)),
            final(self)@.extends(old(self)@),
            final(self)@.wf(),
            final(self).same_settings(*old(self)),
    {
        proof {
            use_type_invariant(&*self);
            lemma_table_nonempty(self.chains@);
            lemma_ingest_all_extends(self@, self.tokens_of(sentences@));
        }
        let ghost all = old(self).tokens_of(sentences@);
        let mut i: usize = 0;
        assert(all.take(0) == Seq::<Seq<Token>>::empty());
        while i < sentences.len()
            invariant
                i <= sentences.len(),
                all == old(self).tokens_of(sentences@),
                self@ == old(self)@.ingest_all(all.take(i as int)),
                self@.wf(),
                self.same_settings(*old(self)),
            decreases sentences.len() - i,
        {
            assert(all.take(i + 1).drop_last() == all.take(i as int));
            assert(all.take(i + 1).last() == self.normalized(split_words(sentences@[i as int]@)));
            self.pass_str(sentences[i]);
            i += 1;
        }
        assert(all.take(sentences.len() as int) == all);
    }

    /// The follower of the context `(first, second)` that `draw` selects, or
    /// one chosen by chance where no draw is given; nothing where the table
    /// has no entry for the context.
    fn follower(&self, first: &String, second: &String, draw: Option<usize>) -> (out: Option<
        String,
    >)
        ensures
            out is Some <==> self@.has_context((first@, second@)),
            out is Some ==> self@.chains[(first@, second@)].contains(out->0@),
            out is Some && draw is Some ==> out->0@ == pick(
                self@.chains[(first@, second@)],
                draw->0 as int,
            ),
    {
        proof {
            use_type_invariant(self);
        }
        match self.position(first, second) {
            None => None,
            Some(i) => {
                proof {
                    lemma_table_at(self.chains@, i as int);
                }
                let k = index_below(self.chains[i].2.len(), draw);
                assert(views(self.chains@[i as int].2@)[k as int] == self.chains@[i as int].2@[k as int]@);
                Some(self.chains[i].2[k].clone())
            },
        }
    }

    /// The words of a walk of up to `length` words: the one that the draws
    /// select, or one chosen by chance where no draws are given; nothing
    /// where the model has no opening.
    fn walk_words(&self, length: i32, draws: Option<&Vec<usize>>) -> (out: Option<Vec<String>>)
        requires
            length >= 2,
        ensures
            out is None <==> self@.seeds.len() == 0,
            out is Some ==> self@.is_walk(length as int, views(out->0@)),
            out is Some && draws is Some ==> views(out->0@) == self@.walk(
                length as int,
                draws->0@,
            ),
    {
        if self.seeds.len() == 0 {
            return None;
        }
        let k = index_below(self.seeds.len(), draw_of(draws, 0));
        let mut words: Vec<String> = Vec::new();
        words.push(self.seeds[k].0.clone());
        words.push(self.seeds[k].1.clone());
        let steps: usize = (length - 2) as usize;
        let mut i: usize = 0;
        proof {
            let seed = seed_views(self.seeds@)[k as int];
            assert(self@.seeds.contains(seed));
            assert(views(words@) == seq![seed.0, seed.1]);
            lemma_path_start(self@, seed);
        }
        while i < steps
            invariant
                length >= 2,
                steps == length - 2,
                i <= steps,
                words.len() == i + 2,
                self@.is_path(views(words@)),
                draws is Some ==> self@.walk(length as int, draws->0@) == self@.extend(
                    views(words@),
                    (steps - i) as nat,
                    draws->0@,
                    1 + i,
                ),
            ensures
                words.len() <= length,
                self@.is_path(views(words@)),
                words.len() < length ==> !self@.has_context(last_context(views(words@))),
                draws is Some ==> views(words@) == self@.walk(length as int, draws->0@),
            decreases steps - i,
        {
            let ghost walked = views(words@);
            assert(last_context(walked) == (words@[i as int]@, words@[i + 1]@));
            let next = self.follower(&words[i], &words[i + 1], draw_of(draws, i + 1));
            match next {
                None => {
                    break ;
                },
                Some(word) => {
                    proof {
                        lemma_views_push(words@, word);
                        lemma_path_push(self@, walked, word@);
                    }
                    words.push(word);
                },
            }
            i += 1;
        }
        Some(words)
    }

    /// The follower of the context `(s1, s2)` that `draw` selects, counting
    /// around the followers of that context; nothing where the table has no
    /// entry for the context.
    pub fn next_with(&self, s1: &String, s2: &String, draw: usize) -> (out: Option<String>)
        ensures
            out is Some <==> self@.has_context((s1@, s2@)),
            out is Some ==> out->0@ == pick(self@.chains[(s1@, s2@)], draw as int),
    {
        self.follower(s1, s2, Some(draw))
    }

    /// A follower of the context `(s1, s2)`, each of its recorded followers
    /// being as likely as any other; nothing where the table has no entry
    /// for the context.
    pub fn next(&self, s1: &String, s2: &String) -> (out: Option<String>)
        ensures
            out is Some <==> self@.has_context((s1@, s2@)),
            out is Some ==> self@.chains[(s1@, s2@)].contains(out->0@),
    {
        self.follower(s1, s2, None)
    }

    /// The sentence of up to `length` words that the draws select: the first
    /// draw picks the opening, each later one the next word among the
    /// followers of the last two, and the walk ends where `length` words are
    /// reached or the last two words have no follower. A draw counts around
    /// what it picks from, and counts as 0 where the draws have run out.
    /// Returns `None` exactly where the model has no opening.
    pub fn generate_with(&self, length: i32, draws: &Vec<usize>) -> (out: Option<String>)
        requires
            length >= 2,
        ensures
            out is Some <==> self@.sentence(length as int, draws@) is Some,
            out is Some ==> out->0@ == self@.sentence(length as int, draws@)->0,
    {
        match self.walk_words(length, Some(draws)) {
            None => None,
            Some(words) => Some(join(&words)),
        }
    }

    /// Generates a sentence of at most `length` words by a walk over what
    /// was fed in, every choice being made by chance. Returns `None` exactly
    /// where the model has no opening; the sentence may be shorter than
    /// `length` words, never longer.
    pub fn generate(&self, length: i32) -> (out: Option<String>)
        requires
            length >= 2,
        ensures
            out is None <==> self@.seeds.len() == 0,
            out is Some ==> exists|walked: Seq<Token>|
                #![trigger self@.is_walk(length as int, walked)]
                self@.is_walk(length as int, walked) && out->0@ == join_words(walked),
    {
        match self.walk_words(length, None) {
            None => None,
            Some(words) => {
                assert(self@.is_walk(length as int, views(words@)));
                Some(join(&words))
            },
        }
    }

    /// The openings recorded so far, in the order of ingestion.
    pub fn seeds(&self) -> (out: Vec<(String, String)>)
        ensures
            seed_views(out@) == self@.seeds,
    {
        let mut out: Vec<(String, String)> = Vec::new();
        let mut i: usize = 0;
        while i < self.seeds.len()
            invariant
                i <= self.seeds.len(),
                out.len() == i,
                forall|k: int|
                    0 <= k < i ==> (#[trigger] out@[k]).0@ == self.seeds@[k].0@ && out@[k].1@
                        == self.seeds@[k].1@,
            decreases self.seeds.len() - i,
        {
            out.push((self.seeds[i].0.clone(), self.seeds[i].1.clone()));
            i += 1;
        }
        assert(seed_views(out@) =~= seed_views(self.seeds@));
        out
    }

    /// The followers recorded for the context `(s1, s2)`, in the order in
    /// which they were seen; nothing where the table has no entry for it.
    pub fn successors(&self, s1: &str, s2: &str) -> (out: Option<Vec<String>>)
        ensures
            out is Some <==> self@.has_context((s1@, s2@)),
            out is Some ==> views(out->0@) == self@.chains[(s1@, s2@)],
    {
        proof {
            use_type_invariant(self);
        }
        match self.position(&s1.to_owned(), &s2.to_owned()) {
            None => None,
            Some(at) => {
                proof {
                    lemma_table_at(self.chains@, at as int);
                }
                let mut out: Vec<String> = Vec::new();
                let mut i: usize = 0;
                while i < self.chains[at].2.len()
                    invariant
                        at < self.chains.len(),
                        i <= self.chains@[at as int].2.len(),
                        out.len() == i,
                        forall|k: int|
                            0 <= k < i ==> (#[trigger] out@[k])@ == self.chains@[at as int].2@[k]@,
                    decreases self.chains@[at as int].2.len() - i,
                {
                    out.push(self.chains[at].2[i].clone());
                    i += 1;
                }
                assert(views(out@) =~= views(self.chains@[at as int].2@));
                Some(out)
            },
        }
    }
}

/// The draw at position `used`, and 0 where the draws have run out; nothing
/// where no draws are given.
fn draw_of(draws: Option<&Vec<usize>>, used: usize) -> (draw: Option<usize>)
    ensures
        draws is Some ==> draw is Some && draw->0 == draw_at(draws->0@, used as int),
        draws is None ==> draw is None,
{
    match draws {
        None => None,
        Some(given) => if used < given.len() {
            Some(given[used])
        } else {
            Some(0)
        },
    }
}

/// An index into a collection of `n` items: the draw counted around `n`, or
/// one chosen by chance where no draw is given.
fn index_below(n: usize, draw: Option<usize>) -> (k: usize)
    requires
        n > 0,
    ensures
        k < n,
        draw is Some ==> k == (draw->0 as int) % (n as int),
{
    match draw {
        Some(d) => d % n,
        None => random_below(n),
    }
}

/// Creates a model that nothing has been fed into, with no filter and with
/// letters left as they are.
pub fn new() -> (m: Markov)
    ensures
        m@ == ModelView::empty(),
        m@.wf(),
        m.filters() == Seq::<Regex>::empty(),
        m.transform() is None,
        m.letter_case() == LetterCase::Any,
{
    let m = Markov {
        seeds: Vec::new(),
        chains: Vec::new(),
        case: LetterCase::Any,
        filters: Vec::new(),
        transform: None,
    };
    assert(seed_views(m.seeds@) == Seq::<Context>::empty());
    m
}

} // verus!
