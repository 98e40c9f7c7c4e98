//! Which names go on from one stage of the pipeline to the next.

use crate::check::Availability;
use crate::edit;
use crate::journal;
use crate::keyed::KeyedMap;
use crate::names;
use crate::ranking;
use crate::scan::Candidate;
use crate::text;
use vstd::prelude::*;
use vstd::utf8::*;

verus! {

pub(crate) proof fn lemma_filter_step<T>(s: Seq<T>, i: int, p: spec_fn(T) -> bool)
    requires
        0 <= i < s.len(),
    ensures
        s.take(i + 1).filter(p) == (if p(s[i]) {
            s.take(i).filter(p).push(s[i])
        } else {
            s.take(i).filter(p)
        }),
{
    reveal(Seq::filter);
    assert(s.take(i + 1).drop_last() =~= s.take(i));
}

pub(crate) proof fn lemma_filter_nothing<T>(s: Seq<T>, p: spec_fn(T) -> bool)
    ensures
        s.take(0).filter(p) == Seq::<T>::empty(),
{
    reveal(Seq::filter);
}

// After the scan

/// Shares no n-gram of size `k` with a seed. With size zero every name passes.
pub open spec fn is_novel<S>(words: Seq<Seq<char>>, k: nat) -> spec_fn(Candidate<S>) -> bool {
    |c: Candidate<S>| !names::shares(c.name@, k, names::grams_of(words, k))
}

/// Is at least `min_edit` edits away from every seed.
pub open spec fn is_distant<S>(words: Seq<Seq<char>>, min_edit: nat) -> spec_fn(
    Candidate<S>,
) -> bool {
    |c: Candidate<S>|
        forall|i: int|
            0 <= i < words.len() ==> edit::distance(
                encode_utf8(c.name@),
                encode_utf8(#[trigger] words[i]),
            ) >= min_edit
}

/// What is left of the candidates of a scan.
pub struct Selection<S> {
    /// The candidates that passed, best first.
    pub ranked: Vec<Candidate<S>>,
    /// Number of candidates that share an n-gram with a seed.
    pub shared_grams: usize,
    /// Number of candidates that are too close to a seed.
    pub close_copies: usize,
    /// How many of the best ones are retained.
    pub kept: usize,
}

/// Filters and ranks the candidates of a scan. The model overfits its corpus: at
/// order 3 it stitches memorized fragments into near-copies. Names that share an
/// n-gram of size `novelty` with a seed are rejected, then names that are fewer
/// than `min_edit` edits away from one; zero disables either filter. `number`
/// gives the number by which a candidate is ranked, the greatest one first.
pub fn select<S, K: Fn(&Candidate<S>) -> i64>(
    found: Vec<Candidate<S>>,
    words: &[String],
    novelty: usize,
    min_edit: usize,
    top: usize,
    number: &K,
) -> (r: Selection<S>)
    requires
        forall|c: &Candidate<S>| call_requires(*number, (c,)),
    ensures
        ({
            let seeds = text::texts(words@);
            let novel = found@.filter(is_novel(seeds, novelty as nat));
            let distant = novel.filter(is_distant(seeds, min_edit as nat));
            &&& ranking::is_ranking(distant, *number, r.ranked@)
            &&& r.shared_grams == found@.len() - novel.len()
            &&& r.close_copies == novel.len() - distant.len()
            &&& r.kept == (if r.ranked@.len() <= top {
                r.ranked@.len()
            } else {
                top as nat
            })
        }),
{
    let ghost seeds = text::texts(words@);
    let ghost all = found@;
    let ghost p = is_novel::<S>(seeds, novelty as nat);
    let banned = names::ngrams(words, novelty);
    let total = found.len();
    let mut novel: Vec<Candidate<S>> = Vec::new();
    proof {
        lemma_filter_nothing(all, p);
    }
    for c in it: found
        invariant
            it.seq() == all,
            seeds == text::texts(words@),
            p == is_novel::<S>(seeds, novelty as nat),
            banned@.dom() == names::grams_of(seeds, novelty as nat),
            novel@ == all.take(it.index()).filter(p),
            novel@.len() <= it.index() <= all.len(),
    {
        proof {
            lemma_filter_step(all, it.index(), p);
        }
        if novelty == 0 || !names::shares_gram(c.name.as_str(), novelty, &banned) {
            novel.push(c);
        }
    }
    assert(all.take(all.len() as int) =~= all);
    let shared_grams: usize = total - novel.len();
    let ghost second = novel@;
    let ghost q = is_distant::<S>(seeds, min_edit as nat);
    let before = novel.len();
    let mut distant: Vec<Candidate<S>> = Vec::new();
    proof {
        lemma_filter_nothing(second, q);
    }
    for c in it: novel
        invariant
            it.seq() == second,
            seeds == text::texts(words@),
            q == is_distant::<S>(seeds, min_edit as nat),
            distant@ == second.take(it.index()).filter(q),
            distant@.len() <= it.index() <= second.len(),
    {
        proof {
            lemma_filter_step(second, it.index(), q);
        }
        let near = edit::near_any(c.name.as_str(), words, min_edit);
        proof {
            if near {
                let i = choose|i: int|
                    0 <= i < words@.len() && edit::distance(
                        encode_utf8(c.name@),
                        encode_utf8((#[trigger] words@[i])@),
                    ) < min_edit;
                assert(seeds[i] == words@[i]@);
            } else {
                assert forall|i: int| 0 <= i < seeds.len() implies edit::distance(
                    encode_utf8(c.name@),
                    encode_utf8(#[trigger] seeds[i]),
                ) >= min_edit by {
                    assert(seeds[i] == words@[i]@);
                }
            }
        }
        if !near {
            distant.push(c);
        }
    }
    assert(second.take(second.len() as int) =~= second);
    let close_copies: usize = before - distant.len();
    let ranked = ranking::rank_by(distant, number);
    let kept: usize = if ranked.len() <= top {
        ranked.len()
    } else {
        top
    };
    Selection { ranked, shared_grams, close_copies, kept }
}

/// Every name that is selected was found by the scan, shares no n-gram with a
/// seed, and is not too close to one.
pub proof fn selected_names_are_novel_and_distant<S, K: Fn(&Candidate<S>) -> i64>(
    found: Seq<Candidate<S>>,
    seeds: Seq<Seq<char>>,
    novelty: nat,
    min_edit: nat,
    number: K,
    ranked: Seq<Candidate<S>>,
    i: int,
)
    requires
        ranking::is_ranking(
            found.filter(is_novel(seeds, novelty)).filter(is_distant(seeds, min_edit)),
            number,
            ranked,
        ),
        0 <= i < ranked.len(),
    ensures
        found.contains(ranked[i]),
        is_novel(seeds, novelty)(ranked[i]),
        is_distant(seeds, min_edit)(ranked[i]),
{
    let p = is_novel::<S>(seeds, novelty);
    let q = is_distant::<S>(seeds, min_edit);
    let novel = found.filter(p);
    let distant = novel.filter(q);
    ranking::a_ranking_is_in_order(distant, number, ranked);
    ranked.to_multiset_ensures();
    distant.to_multiset_ensures();
    assert(ranked.contains(ranked[i]));
    assert(ranked.to_multiset().count(ranked[i]) > 0);
    assert(distant.contains(ranked[i]));
    novel.lemma_filter_contains_rev(q, ranked[i]);
    found.lemma_filter_contains_rev(p, ranked[i]);
    let j = choose|j: int| 0 <= j < distant.len() && distant[j] == ranked[i];
    novel.lemma_filter_pred(q, j);
    let k = choose|k: int| 0 <= k < novel.len() && novel[k] == ranked[i];
    found.lemma_filter_pred(p, k);
}

// Around the availability check

/// The name has no entry.
pub open spec fn is_missing<V>(cache: Map<Seq<u8>, V>) -> spec_fn(Seq<char>) -> bool {
    |n: Seq<char>| !cache.contains_key(encode_utf8(n))
}

/// The names without an entry, in their order: those that are still to be asked
/// for.
pub fn missing<V>(list: &[String], cache: &KeyedMap<V>) -> (r: Vec<String>)
    ensures
        text::texts(r@) == text::texts(list@).filter(is_missing(cache@)),
{
    let ghost all = text::texts(list@);
    let ghost p = is_missing(cache@);
    let mut r: Vec<String> = Vec::new();
    proof {
        lemma_filter_nothing(all, p);
        assert(text::texts(r@) =~= Seq::empty());
    }
    for i in 0..list.len()
        invariant
            all == text::texts(list@),
            p == is_missing(cache@),
            text::texts(r@) == all.take(i as int).filter(p),
    {
        let name = list[i].as_str();
        assert(all[i as int] == name@);
        proof {
            lemma_filter_step(all, i as int, p);
        }
        let ghost before = text::texts(r@);
        if !cache.contains(name.as_bytes()) {
            let copy = text::copy_text(name);
            r.push(copy);
            assert(text::texts(r@) =~= before.push(name@));
        }
    }
    assert(all.take(list@.len() as int) =~= all);
    r
}

/// A name is asked for exactly as long as no definite answer has been recorded:
/// once the journal has one, later runs leave the name out, and an unknown answer
/// changes nothing.
pub proof fn answered_names_are_not_asked_again(
    t: Seq<char>,
    line: Seq<char>,
    name: Seq<char>,
    a: Availability,
    n: Seq<char>,
)
    requires
        t.len() == 0 || t.last() == '\n',
        journal::is_verdict_record(line, name, a),
    ensures
        ({
            let before = is_missing(journal::verdicts_in(journal::records_of(t)));
            let after = is_missing(
                journal::verdicts_in(journal::records_of(t + line.push('\n'))),
            );
            after(n) <==> before(n) && !(n == name && a != Availability::Unknown)
        }),
{
    journal::recorded_verdicts_are_read_back(t, line, name, a);
    text::bytes_identify_text(n, name);
}

/// The first rows, if there is a limit.
pub fn limit_rows<S>(rows: Vec<Candidate<S>>, limit: Option<usize>) -> (r: Vec<Candidate<S>>)
    ensures
        r@ == match limit {
            Some(n) => if n < rows@.len() {
                rows@.take(n as int)
            } else {
                rows@
            },
            None => rows@,
        },
{
    let mut r = rows;
    if let Some(n) = limit {
        if n < r.len() {
            r.truncate(n);
        }
    }
    r
}

/// What is known of a name: a fresh verdict counts more than one from the journal.
pub open spec fn verdict_on(
    n: Seq<char>,
    fresh: Map<Seq<u8>, Availability>,
    known: Map<Seq<u8>, Availability>,
) -> Option<Availability> {
    if fresh.contains_key(encode_utf8(n)) {
        Some(fresh[encode_utf8(n)])
    } else if known.contains_key(encode_utf8(n)) {
        Some(known[encode_utf8(n)])
    } else {
        None
    }
}

/// The row's name is known to be free.
pub open spec fn is_available<S>(
    fresh: Map<Seq<u8>, Availability>,
    known: Map<Seq<u8>, Availability>,
) -> spec_fn(Candidate<S>) -> bool {
    |c: Candidate<S>| verdict_on(c.name@, fresh, known) == Some(Availability::Free)
}

/// The rows whose names are known to be free, in their order.
pub fn available<S>(
    rows: Vec<Candidate<S>>,
    fresh: &KeyedMap<Availability>,
    known: &KeyedMap<Availability>,
) -> (r: Vec<Candidate<S>>)
    ensures
        r@ == rows@.filter(is_available(fresh@, known@)),
{
    let ghost all = rows@;
    let ghost p = is_available::<S>(fresh@, known@);
    let mut r: Vec<Candidate<S>> = Vec::new();
    proof {
        lemma_filter_nothing(all, p);
    }
    for c in it: rows
        invariant
            it.seq() == all,
            p == is_available::<S>(fresh@, known@),
            r@ == all.take(it.index()).filter(p),
    {
        proof {
            lemma_filter_step(all, it.index(), p);
        }
        let key = c.name.as_str().as_bytes();
        let verdict = match fresh.get(key) {
            Some(a) => Some(*a),
            None => match known.get(key) {
                Some(a) => Some(*a),
                None => None,
            },
        };
        if let Some(Availability::Free) = verdict {
            r.push(c);
        }
    }
    assert(all.take(all.len() as int) =~= all);
    r
}

/// A name that is passed on as available was in the input, and its verdict is
/// that it is free; an unknown or missing verdict never passes for one.
pub proof fn only_free_names_are_available<S>(
    rows: Seq<Candidate<S>>,
    fresh: Map<Seq<u8>, Availability>,
    known: Map<Seq<u8>, Availability>,
    i: int,
)
    requires
        0 <= i < rows.filter(is_available(fresh, known)).len(),
    ensures
        ({
            let row = rows.filter(is_available(fresh, known))[i];
            &&& rows.contains(row)
            &&& verdict_on(row.name@, fresh, known) == Some(Availability::Free)
        }),
{
    let p = is_available::<S>(fresh, known);
    let left = rows.filter(p);
    rows.lemma_filter_pred(p, i);
    assert(left.contains(left[i]));
    rows.lemma_filter_contains_rev(p, left[i]);
}

// What the filters come to

proof fn lemma_filter_twice<T>(s: Seq<T>, p: spec_fn(T) -> bool, q: spec_fn(T) -> bool)
    ensures
        s.filter(p).filter(q) == s.filter(|x: T| p(x) && q(x)),
    decreases s.len(),
{
    reveal(Seq::filter);
    if s.len() > 0 {
        let rest = s.drop_last();
        lemma_filter_twice(rest, p, q);
        if p(s.last()) {
            assert(rest.filter(p).push(s.last()).drop_last() =~= rest.filter(p));
        }
    }
}

proof fn lemma_filter_counts<T>(
    s: Seq<T>,
    p: spec_fn(T) -> bool,
    q: spec_fn(T) -> bool,
    r: spec_fn(T) -> bool,
)
    requires
        forall|x: T| #[trigger] r(x) == (p(x) || q(x)),
        forall|x: T| !(#[trigger] p(x) && q(x)),
    ensures
        s.filter(p).len() + s.filter(q).len() == s.filter(r).len(),
    decreases s.len(),
{
    reveal(Seq::filter);
    if s.len() > 0 {
        lemma_filter_counts(s.drop_last(), p, q, r);
        assert(r(s.last()) == (p(s.last()) || q(s.last())));
        assert(!(p(s.last()) && q(s.last())));
    }
}

proof fn lemma_filter_everything<T>(s: Seq<T>, p: spec_fn(T) -> bool)
    requires
        forall|x: T| #[trigger] p(x),
    ensures
        s.filter(p) == s,
    decreases s.len(),
{
    reveal(Seq::filter);
    if s.len() > 0 {
        lemma_filter_everything(s.drop_last(), p);
        assert(p(s.last()));
        assert(s.drop_last().push(s.last()) =~= s);
    } else {
        assert(s.filter(p) =~= s);
    }
}

/// What passes one of two tests and what passes the other make up the whole.
pub(crate) proof fn lemma_filter_parts<T>(
    s: Seq<T>,
    p: spec_fn(T) -> bool,
    q: spec_fn(T) -> bool,
)
    requires
        forall|x: T| #[trigger] p(x) == !q(x),
    ensures
        s.filter(p).len() + s.filter(q).len() == s.len(),
{
    let all = |x: T| true;
    assert forall|x: T| #[trigger] all(x) == (p(x) || q(x)) by {
        assert(p(x) == !q(x));
    }
    lemma_filter_counts(s, p, q, all);
    lemma_filter_everything(s, all);
}

/// An element passes a filter exactly when it is there and passes the test.
pub(crate) proof fn lemma_filter_has<T>(s: Seq<T>, p: spec_fn(T) -> bool, x: T)
    ensures
        s.filter(p).contains(x) <==> s.contains(x) && p(x),
{
    if s.filter(p).contains(x) {
        s.lemma_filter_contains_rev(p, x);
        let i = choose|i: int| 0 <= i < s.filter(p).len() && s.filter(p)[i] == x;
        s.lemma_filter_pred(p, i);
    }
    if s.contains(x) && p(x) {
        let i = choose|i: int| 0 <= i < s.len() && s[i] == x;
        s.lemma_filter_contains(p, i);
    }
}

/// A name that has `k` bytes in a row in common with a seed; with size zero there is
/// none.
pub open spec fn copies_a_run<S>(seeds: Seq<Seq<char>>, k: nat) -> spec_fn(Candidate<S>) -> bool {
    |c: Candidate<S>|
        k > 0 && exists|s: int|
            0 <= s < seeds.len() && #[trigger] names::have_run_in_common(c.name@, seeds[s], k)
}

/// A name that some seed can be turned into by fewer than `min_edit` edits, which
/// has no run in common with one.
pub open spec fn is_too_close<S>(seeds: Seq<Seq<char>>, k: nat, min_edit: nat) -> spec_fn(
    Candidate<S>,
) -> bool {
    |c: Candidate<S>|
        !copies_a_run(seeds, k)(c) && exists|s: int|
            0 <= s < seeds.len() && min_edit > 0 && #[trigger] edit::within_edits(
                encode_utf8(c.name@),
                encode_utf8(seeds[s]),
                (min_edit - 1) as nat,
            )
}

proof fn lemma_novel_is_no_copy<S>(seeds: Seq<Seq<char>>, k: nat, c: Candidate<S>)
    ensures
        is_novel(seeds, k)(c) == !copies_a_run(seeds, k)(c),
{
    if k > 0 {
        names::sharing_is_having_a_run_in_common(c.name@, seeds, k);
    } else if names::shares(c.name@, k, names::grams_of(seeds, k)) {
        let i = choose|i: int|
            0 <= i && i + k <= encode_utf8(c.name@).len() && names::grams_of(seeds, k).contains(
                #[trigger] encode_utf8(c.name@).subrange(i, i + k),
            );
        names::grams_are_pieces_of_words(seeds, k, encode_utf8(c.name@).subrange(i, i + k));
    }
}

proof fn lemma_distant_is_beyond_edits<S>(seeds: Seq<Seq<char>>, min_edit: nat, c: Candidate<S>)
    ensures
        is_distant(seeds, min_edit)(c) <==> !exists|s: int|
            0 <= s < seeds.len() && min_edit > 0 && #[trigger] edit::within_edits(
                encode_utf8(c.name@),
                encode_utf8(seeds[s]),
                (min_edit - 1) as nat,
            ),
{
    let n = encode_utf8(c.name@);
    if min_edit > 0 {
        let k = (min_edit - 1) as nat;
        assert forall|s: int| 0 <= s < seeds.len() implies (edit::distance(
            n,
            encode_utf8(#[trigger] seeds[s]),
        ) < min_edit) == edit::within_edits(n, encode_utf8(seeds[s]), k) by {
            edit::distance_counts_edits(n, encode_utf8(seeds[s]), k);
        }
        if is_distant(seeds, min_edit)(c) {
            assert forall|s: int| 0 <= s < seeds.len() implies !#[trigger] edit::within_edits(
                n,
                encode_utf8(seeds[s]),
                k,
            ) by {
                assert(edit::distance(n, encode_utf8(seeds[s])) >= min_edit);
            }
        } else {
            let s = choose|s: int|
                0 <= s < seeds.len() && edit::distance(n, encode_utf8(#[trigger] seeds[s]))
                    < min_edit;
            assert(edit::within_edits(n, encode_utf8(seeds[s]), k));
        }
    }
}

/// What is selected is what was found, without the names that have a run of
/// `novelty` bytes in common with a seed and without those fewer than `min_edit`
/// edits away from one: every other name is there, as often as it was found. What
/// was left out is counted by the reason for it.
pub proof fn selection_leaves_out_copies_only<S, K: Fn(&Candidate<S>) -> i64>(
    found: Seq<Candidate<S>>,
    seeds: Seq<Seq<char>>,
    novelty: nat,
    min_edit: nat,
    number: K,
    ranked: Seq<Candidate<S>>,
)
    requires
        ranking::is_ranking(
            found.filter(is_novel(seeds, novelty)).filter(is_distant(seeds, min_edit)),
            number,
            ranked,
        ),
    ensures
        ranked.to_multiset() == found.filter(
            |c: Candidate<S>|
                !copies_a_run(seeds, novelty)(c) && !is_too_close(seeds, novelty, min_edit)(c),
        ).to_multiset(),
        found.len() - found.filter(is_novel(seeds, novelty)).len() == found.filter(
            copies_a_run(seeds, novelty),
        ).len(),
        found.filter(is_novel(seeds, novelty)).len() - ranked.len() == found.filter(
            is_too_close(seeds, novelty, min_edit),
        ).len(),
{
    let p = is_novel::<S>(seeds, novelty);
    let q = is_distant::<S>(seeds, min_edit);
    let copy = copies_a_run::<S>(seeds, novelty);
    let close = is_too_close::<S>(seeds, novelty, min_edit);
    let good = |c: Candidate<S>| !copies_a_run(seeds, novelty)(c) && !is_too_close(
        seeds,
        novelty,
        min_edit,
    )(c);
    let both = |c: Candidate<S>| p(c) && q(c);
    assert forall|c: Candidate<S>| #[trigger] p(c) == !copy(c) by {
        lemma_novel_is_no_copy(seeds, novelty, c);
    }
    assert forall|c: Candidate<S>| #[trigger] both(c) == good(c) by {
        lemma_novel_is_no_copy(seeds, novelty, c);
        lemma_distant_is_beyond_edits(seeds, min_edit, c);
    }
    assert(both =~= good);
    lemma_filter_twice(found, p, q);
    ranking::a_ranking_is_in_order(found.filter(p).filter(q), number, ranked);
    lemma_filter_parts(found, p, copy);
    assert forall|c: Candidate<S>| #[trigger] p(c) == (both(c) || close(c)) by {
        lemma_novel_is_no_copy(seeds, novelty, c);
        lemma_distant_is_beyond_edits(seeds, min_edit, c);
    }
    assert forall|c: Candidate<S>| !(#[trigger] both(c) && close(c)) by {
        assert(both(c) == good(c));
    }
    lemma_filter_counts(found, both, close, p);
    ranked.to_multiset_ensures();
    found.filter(p).filter(q).to_multiset_ensures();
    assert(ranked.len() == found.filter(p).filter(q).len());
}

/// No name that is selected has a run of `novelty` bytes in common with any seed,
/// wherever it stands in the one or in the other.
pub proof fn selected_names_copy_no_run<S, K: Fn(&Candidate<S>) -> i64>(
    found: Seq<Candidate<S>>,
    seeds: Seq<Seq<char>>,
    novelty: nat,
    min_edit: nat,
    number: K,
    ranked: Seq<Candidate<S>>,
    n: int,
    s: int,
    i: int,
    j: int,
)
    requires
        ranking::is_ranking(
            found.filter(is_novel(seeds, novelty)).filter(is_distant(seeds, min_edit)),
            number,
            ranked,
        ),
        novelty > 0,
        0 <= n < ranked.len(),
        0 <= s < seeds.len(),
        0 <= i,
        i + novelty <= encode_utf8(ranked[n].name@).len(),
        0 <= j,
        j + novelty <= encode_utf8(seeds[s]).len(),
    ensures
        encode_utf8(ranked[n].name@).subrange(i, i + novelty) != encode_utf8(seeds[s]).subrange(
            j,
            j + novelty,
        ),
{
    selected_names_are_novel_and_distant(found, seeds, novelty, min_edit, number, ranked, n);
    lemma_novel_is_no_copy(seeds, novelty, ranked[n]);
    let a = encode_utf8(ranked[n].name@);
    let b = encode_utf8(seeds[s]);
    names::lemma_same_run(a, b, novelty, i, j);
    if a.subrange(i, i + novelty) == b.subrange(j, j + novelty) {
        assert(names::same_run(a, b, novelty, i, j));
        assert(names::have_run_in_common(ranked[n].name@, seeds[s], novelty));
    }
}

/// The names that are still to be asked for are those of the list without an
/// entry under their bytes, and all of them.
pub proof fn missing_names_have_no_entry<V>(
    list: Seq<Seq<char>>,
    cache: Map<Seq<u8>, V>,
    n: Seq<char>,
)
    ensures
        list.filter(is_missing(cache)).contains(n) <==> list.contains(n) && !cache.dom().contains(
            encode_utf8(n),
        ),
{
    lemma_filter_has(list, is_missing(cache), n);
}

/// The rows that are passed on as available are those whose name is free by the
/// newest verdict on it: by the fresh one, or by that of the journal where there
/// is no fresh one.
pub proof fn available_rows_are_the_free_ones<S>(
    rows: Seq<Candidate<S>>,
    fresh: Map<Seq<u8>, Availability>,
    known: Map<Seq<u8>, Availability>,
    row: Candidate<S>,
)
    ensures
        ({
            let key = encode_utf8(row.name@);
            rows.filter(is_available(fresh, known)).contains(row) <==> rows.contains(row)
                && known.union_prefer_right(fresh).dom().contains(key)
                && known.union_prefer_right(fresh)[key] == Availability::Free
        }),
{
    lemma_filter_has(rows, is_available(fresh, known), row);
}

} // verus!
