//! Splitting a sentence into tokens and joining tokens back into a sentence.

use vstd::prelude::*;
use vstd::std_specs::iter::IteratorSpec;
use vstd::string::*;

verus! {

/// The characters that separate tokens: space, tab, newline, carriage return.
pub open spec fn is_separator(c: char) -> bool {
    c == ' ' || c == '\t' || c == '\n' || c == '\r'
}

/// The length of the longest prefix of `s` that holds no separator.
pub open spec fn run_len(s: Seq<char>) -> nat
    decreases s.len(),
{
    if s.len() == 0 || is_separator(s[0]) {
        0
    } else {
        1 + run_len(s.drop_first())
    }
}

/// The tokens of `s`: its maximal runs of non-separator characters, in order.
pub open spec fn split_words(s: Seq<char>) -> Seq<Seq<char>>
    decreases s.len(),
{
    if s.len() == 0 {
        Seq::empty()
    } else if is_separator(s[0]) {
        split_words(s.drop_first())
    } else {
        let n = run_len(s);
        proof {
            lemma_run_len_bound(s);
        }
        seq![s.take(n as int)] + split_words(s.skip(n as int))
    }
}

/// The tokens of `ws` written one after another, a single space between
/// neighbours.
pub open spec fn join_words(ws: Seq<Seq<char>>) -> Seq<char>
    decreases ws.len(),
{
    if ws.len() == 0 {
        Seq::empty()
    } else if ws.len() == 1 {
        ws[0]
    } else {
        join_words(ws.drop_last()) + seq![' '] + ws.last()
    }
}

/// Whether `t` can stand as a word of a sentence: it is not empty and holds
/// no separator.
pub open spec fn is_word(t: Seq<char>) -> bool {
    &&& t.len() > 0
    &&& forall|k: int| 0 <= k < t.len() ==> !is_separator(#[trigger] t[k])
}

/// The character sequences that a vector of strings stands for.
pub open spec fn views(v: Seq<String>) -> Seq<Seq<char>> {
    Seq::new(v.len(), |i: int| v[i]@)
}

/// A run is never longer than the sequence it starts.
pub proof fn lemma_run_len_bound(s: Seq<char>)
    ensures
        run_len(s) <= s.len(),
        s.len() > 0 && !is_separator(s[0]) ==> run_len(s) >= 1,
    decreases s.len(),
{
    if s.len() > 0 && !is_separator(s[0]) {
        lemma_run_len_bound(s.drop_first());
    }
}

/// If the first `n` characters of `s` are no separators and the run cannot go
/// on after them, the run has length `n`.
pub proof fn lemma_run_len_is(s: Seq<char>, n: int)
    requires
        0 <= n <= s.len(),
        forall|k: int| 0 <= k < n ==> !is_separator(#[trigger] s[k]),
        n == s.len() || is_separator(s[n]),
    ensures
        run_len(s) == n,
    decreases n,
{
    if n > 0 {
        let t = s.drop_first();
        assert forall|k: int| 0 <= k < n - 1 implies !is_separator(#[trigger] t[k]) by {
            assert(t[k] == s[k + 1]);
        }
        lemma_run_len_is(t, n - 1);
    }
}

/// Where a run of non-separators from `start` to `end` is closed by a
/// separator or by the end of `s`, it is the first token of what `start`
/// begins, and the rest are the tokens of what follows the separator.
pub proof fn lemma_split_after_run(s: Seq<char>, start: int, end: int)
    requires
        0 <= start < end <= s.len(),
        forall|k: int| start <= k < end ==> !is_separator(#[trigger] s[k]),
        end == s.len() || is_separator(s[end]),
    ensures
        split_words(s.skip(start)) == seq![s.subrange(start, end)] + split_words(
            s.skip(if end == s.len() { end } else { end + 1 }),
        ),
{
    let t = s.skip(start);
    let n = end - start;
    assert forall|k: int| 0 <= k < n implies !is_separator(#[trigger] t[k]) by {
        assert(t[k] == s[start + k]);
    }
    lemma_run_len_is(t, n);
    assert(t.take(n) == s.subrange(start, end));
    assert(t.skip(n) == s.skip(end));
    assert(split_words(t) == seq![t.take(n)] + split_words(t.skip(n)));
    if end < s.len() {
        let rest = s.skip(end);
        assert(is_separator(rest[0]));
        assert(rest.drop_first() == s.skip(end + 1));
        assert(split_words(rest) == split_words(rest.drop_first()));
    }
}

/// Appending a string to a vector appends its characters to the views.
pub proof fn lemma_views_push(v: Seq<String>, s: String)
    ensures
        views(v.push(s)) == views(v).push(s@),
{
    assert(views(v.push(s)) =~= views(v).push(s@));
}

/// `String::push` of std appends the character to the end of the string.
pub assume_specification[ String::push ](s: &mut String, c: char)
    ensures
        final(s)@ == old(s)@.push(c),
;

/// Whether `c` separates tokens.
fn separates(c: char) -> (b: bool)
    ensures
        b == is_separator(c),
{
    c == ' ' || c == '\t' || c == '\n' || c == '\r'
}

/// Collects the words of a sentence: its maximal runs of characters other
/// than space, tab, newline and carriage return. A sentence without such a
/// character has no words.
pub fn words(sentence: &str) -> (out: Vec<String>)
    ensures
        views(out@) == split_words(sentence@),
{
    broadcast use group_string_axioms;

    let ghost s = sentence@;
    let mut out: Vec<String> = Vec::new();
    let mut cur = String::new();
    let mut it = sentence.chars();
    let ghost mut start: int = 0;
    let ghost mut pos: int = 0;
    assert(s.skip(0) == s);
    assert(views(out@) == Seq::<Seq<char>>::empty());
    loop
        invariant
            s == sentence@,
            0 <= start <= pos <= s.len(),
            it.remaining() == s.skip(pos),
            cur@ == s.subrange(start, pos),
            forall|k: int| start <= k < pos ==> !is_separator(#[trigger] s[k]),
            split_words(s) == views(out@) + split_words(s.skip(start)),
        ensures
            pos == s.len(),
            0 <= start <= pos,
            cur@ == s.subrange(start, pos),
            forall|k: int| start <= k < pos ==> !is_separator(#[trigger] s[k]),
            split_words(s) == views(out@) + split_words(s.skip(start)),
        decreases s.len() - pos,
    {
        let next = it.next();
        match next {
            None => {
                break ;
            },
            Some(c) => {
                assert(c == s[pos]);
                assert(s.skip(pos).drop_first() == s.skip(pos + 1));
                if separates(c) {
                    if cur.as_str().is_empty() {
                        assert(start == pos);
                    } else {
                        proof {
                            lemma_split_after_run(s, start, pos);
                            lemma_views_push(out@, cur);
                        }
                        out.push(cur);
                        cur = String::new();
                    }
                    proof {
                        start = pos + 1;
                        pos = pos + 1;
                    }
                } else {
                    cur.push(c);
                    proof {
                        pos = pos + 1;
                    }
                }
            },
        }
    }
    if !cur.as_str().is_empty() {
        proof {
            lemma_split_after_run(s, start, pos);
            lemma_views_push(out@, cur);
        }
        out.push(cur);
    }
    out
}

/// Writes the words one after another, with a single space between
/// neighbours.
pub fn join(words: &Vec<String>) -> (out: String)
    ensures
        out@ == join_words(views(words@)),
{
    let mut out = String::new();
    let mut i: usize = 0;
    assert(views(words@).take(0) == Seq::<Seq<char>>::empty());
    while i < words.len()
        invariant
            i <= words.len(),
            out@ == join_words(views(words@).take(i as int)),
        decreases words.len() - i,
    {
        let ghost done = views(words@).take(i as int);
        let ghost more = views(words@).take(i + 1);
        assert(more.drop_last() == done);
        assert(more.last() == words@[i as int]@);
        if i > 0 {
            out.push(' ');
        }
        out.append(words[i].as_str());
        i += 1;
    }
    assert(views(words@).take(words.len() as int) == views(words@));
    out
}

/// The characters of a run are no separators.
pub proof fn lemma_run_is_word(s: Seq<char>)
    requires
        s.len() > 0,
        !is_separator(s[0]),
    ensures
        run_len(s) <= s.len(),
        is_word(s.take(run_len(s) as int)),
    decreases s.len(),
{
    lemma_run_len_bound(s);
    let t = s.drop_first();
    let n = run_len(s) as int;
    if t.len() > 0 && !is_separator(t[0]) {
        lemma_run_is_word(t);
        assert forall|k: int| 0 <= k < n implies !is_separator(#[trigger] s.take(n)[k]) by {
            if k > 0 {
                assert(s.take(n)[k] == t.take(n - 1)[k - 1]);
            }
        }
    } else {
        assert(run_len(t) == 0);
    }
}

/// A sentence of two or more words is its first word, a space, and the
/// sentence of the others.
pub proof fn lemma_join_first(ws: Seq<Seq<char>>)
    requires
        ws.len() >= 2,
    ensures
        join_words(ws) == ws[0] + seq![' '] + join_words(ws.drop_first()),
    decreases ws.len(),
{
    let front = ws.drop_last();
    if ws.len() == 2 {
        assert(join_words(front) == ws[0]);
        assert(join_words(ws.drop_first()) == ws[1]);
    } else {
        lemma_join_first(front);
        assert(front.drop_first() == ws.drop_first().drop_last());
        assert(ws.drop_first().last() == ws.last());
        assert(join_words(ws) =~= ws[0] + seq![' '] + join_words(ws.drop_first()));
    }
}

/// Splitting the sentence made of words gives the words back.
pub proof fn lemma_split_join(ws: Seq<Seq<char>>)
    requires
        forall|i: int| 0 <= i < ws.len() ==> is_word(#[trigger] ws[i]),
    ensures
        split_words(join_words(ws)) == ws,
    decreases ws.len(),
{
    if ws.len() == 0 {
    } else {
        let first = ws[0];
        let s = join_words(ws);
        let n = first.len() as int;
        assert(is_word(first));
        if ws.len() == 1 {
            assert(s == first);
            lemma_split_after_run(s, 0, n);
            assert(s.skip(0) == s);
            assert(s.subrange(0, n) == first);
            assert(s.skip(n).len() == 0);
            assert(split_words(s) =~= ws);
        } else {
            let rest = ws.drop_first();
            lemma_join_first(ws);
            assert forall|i: int| 0 <= i < rest.len() implies is_word(#[trigger] rest[i]) by {
                assert(rest[i] == ws[i + 1]);
            }
            lemma_split_join(rest);
            assert forall|k: int| 0 <= k < n implies !is_separator(#[trigger] s[k]) by {
                assert(s[k] == first[k]);
            }
            assert(s[n] == ' ');
            lemma_split_after_run(s, 0, n);
            assert(s.skip(0) == s);
            assert(s.subrange(0, n) == first);
            assert(s.skip(n + 1) == join_words(rest));
            assert(split_words(s) =~= ws);
        }
    }
}

} // verus!
