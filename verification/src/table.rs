//! How the table of followers is stored: a list of entries, one per context,
//! and the map that such a list stands for.

use crate::chain::{Context, Token};
use crate::text::views;
use vstd::prelude::*;

verus! {

/// The context that an entry of the table is stored under.
pub open spec fn entry_context(e: (String, String, Vec<String>)) -> Context {
    (e.0@, e.1@)
}

/// The followers that an entry of the table holds.
pub open spec fn entry_followers(e: (String, String, Vec<String>)) -> Seq<Token> {
    views(e.2@)
}

/// No two entries are stored under the same context.
pub open spec fn distinct_contexts(entries: Seq<(String, String, Vec<String>)>) -> bool {
    forall|i: int, j: int|
        #![trigger entries[i], entries[j]]
        0 <= i < j < entries.len() ==> entry_context(entries[i]) != entry_context(entries[j])
}

/// Every entry holds at least one follower.
pub open spec fn nonempty_followers(entries: Seq<(String, String, Vec<String>)>) -> bool {
    forall|i: int| 0 <= i < entries.len() ==> (#[trigger] entries[i]).2.len() > 0
}

/// The table that a list of entries stands for.
pub open spec fn table(entries: Seq<(String, String, Vec<String>)>) -> Map<Context, Seq<Token>>
    decreases entries.len(),
{
    if entries.len() == 0 {
        Map::empty()
    } else {
        table(entries.drop_last()).insert(
            entry_context(entries.last()),
            entry_followers(entries.last()),
        )
    }
}

/// The openings that a list of pairs stands for.
pub open spec fn seed_views(seeds: Seq<(String, String)>) -> Seq<Context> {
    Seq::new(seeds.len(), |i: int| (seeds[i].0@, seeds[i].1@))
}

/// The table has an entry for exactly the contexts of the list.
pub proof fn lemma_table_dom(entries: Seq<(String, String, Vec<String>)>, c: Context)
    ensures
        table(entries).dom().contains(c) <==> exists|i: int|
            0 <= i < entries.len() && entry_context(#[trigger] entries[i]) == c,
    decreases entries.len(),
{
    if entries.len() > 0 {
        let front = entries.drop_last();
        lemma_table_dom(front, c);
        if table(entries).dom().contains(c) {
            if entry_context(entries.last()) == c {
                assert(entry_context(entries[entries.len() - 1]) == c);
            } else {
                let i = choose|i: int| 0 <= i < front.len() && entry_context(#[trigger] front[i]) == c;
                assert(entry_context(entries[i]) == c);
            }
        }
        if exists|i: int| 0 <= i < entries.len() && entry_context(#[trigger] entries[i]) == c {
            let i = choose|i: int| 0 <= i < entries.len() && entry_context(#[trigger] entries[i]) == c;
            if i < entries.len() - 1 {
                assert(entry_context(front[i]) == c);
            }
        }
    }
}

/// Where contexts are distinct, the table maps the context of each entry to
/// that entry's followers.
pub proof fn lemma_table_at(entries: Seq<(String, String, Vec<String>)>, i: int)
    requires
        distinct_contexts(entries),
        0 <= i < entries.len(),
    ensures
        table(entries).dom().contains(entry_context(entries[i])),
        table(entries)[entry_context(entries[i])] == entry_followers(entries[i]),
    decreases entries.len(),
{
    let front = entries.drop_last();
    if i < entries.len() - 1 {
        assert forall|a: int, b: int| 0 <= a < b < front.len() implies entry_context(
            #[trigger] front[a],
        ) != entry_context(#[trigger] front[b]) by {
            assert(front[a] == entries[a] && front[b] == entries[b]);
        }
        lemma_table_at(front, i);
        assert(front[i] == entries[i]);
        assert(entry_context(entries[i]) != entry_context(entries[entries.len() - 1]));
    }
}

/// Replacing the followers of one entry replaces them in the table, and keeps
/// the contexts distinct.
pub proof fn lemma_table_update(
    entries: Seq<(String, String, Vec<String>)>,
    i: int,
    e: (String, String, Vec<String>),
)
    requires
        distinct_contexts(entries),
        0 <= i < entries.len(),
        entry_context(e) == entry_context(entries[i]),
    ensures
        distinct_contexts(entries.update(i, e)),
        table(entries.update(i, e)) == table(entries).insert(
            entry_context(e),
            entry_followers(e),
        ),
    decreases entries.len(),
{
    let after = entries.update(i, e);
    assert forall|a: int, b: int| 0 <= a < b < after.len() implies entry_context(
        #[trigger] after[a],
    ) != entry_context(#[trigger] after[b]) by {
        assert(entry_context(after[a]) == entry_context(entries[a]));
        assert(entry_context(after[b]) == entry_context(entries[b]));
    }
    let front = entries.drop_last();
    if i == entries.len() - 1 {
        assert(after.drop_last() == front);
        assert(table(after) == table(entries).insert(entry_context(e), entry_followers(e)));
    } else {
        assert forall|a: int, b: int| 0 <= a < b < front.len() implies entry_context(
            #[trigger] front[a],
        ) != entry_context(#[trigger] front[b]) by {
            assert(front[a] == entries[a] && front[b] == entries[b]);
        }
        assert(front[i] == entries[i]);
        lemma_table_update(front, i, e);
        assert(after.drop_last() == front.update(i, e));
        assert(after.last() == entries.last());
        assert(entry_context(entries[i]) != entry_context(entries[entries.len() - 1]));
        assert(table(after) == table(entries).insert(entry_context(e), entry_followers(e)));
    }
}

/// Where contexts are distinct and no entry is empty, no context of the table
/// is without a follower.
pub proof fn lemma_table_nonempty(entries: Seq<(String, String, Vec<String>)>)
    requires
        distinct_contexts(entries),
        nonempty_followers(entries),
    ensures
        forall|c: Context| #[trigger] table(entries).dom().contains(c) ==> table(entries)[c].len() > 0,
{
    assert forall|c: Context| #[trigger] table(entries).dom().contains(c) implies table(
        entries,
    )[c].len() > 0 by {
        lemma_table_dom(entries, c);
        let i = choose|i: int| 0 <= i < entries.len() && entry_context(#[trigger] entries[i]) == c;
        lemma_table_at(entries, i);
        assert(entries[i].2.len() > 0);
    }
}

/// Appending an entry under a context that the list does not hold yet keeps
/// the contexts distinct.
pub proof fn lemma_distinct_push(
    entries: Seq<(String, String, Vec<String>)>,
    e: (String, String, Vec<String>),
)
    requires
        distinct_contexts(entries),
        !table(entries).dom().contains(entry_context(e)),
    ensures
        distinct_contexts(entries.push(e)),
{
    let after = entries.push(e);
    assert forall|a: int, b: int| 0 <= a < b < after.len() implies entry_context(
        #[trigger] after[a],
    ) != entry_context(#[trigger] after[b]) by {
        assert(after[a] == entries[a]);
        if b == entries.len() {
            lemma_table_dom(entries, entry_context(e));
        } else {
            assert(after[b] == entries[b]);
        }
    }
}

/// Appending a pair to the list appends its views to the openings.
pub proof fn lemma_seed_views_push(seeds: Seq<(String, String)>, s: (String, String))
    ensures
        seed_views(seeds.push(s)) == seed_views(seeds).push((s.0@, s.1@)),
{
    assert(seed_views(seeds.push(s)) =~= seed_views(seeds).push((s.0@, s.1@)));
}

} // verus!
