//! Exhaustive traversal of the [a-z]^L space.
//!
//! 26^6 + 26^7 ≈ 8.34 billion strings: this is enumerable as long as we do not
//! compute a complete score for every string. Two ideas make this possible:
//!
//! 1. **Incremental scoring** — descend the prefix tree while accumulating log
//!    probability. Each leaf costs only one more table lookup than its parent.
//! 2. **Pruning** — all log probabilities are negative, so the cumulative score
//!    can only decrease. Once a prefix falls below the threshold, no suffix can
//!    recover, and the entire branch can be cut.
//!
//! Most of the search space dies within the first three letters.

use crate::markov;
use crate::markov::{Markov, ALPHA, BOUND, LETTER_A};
use crate::names;
use crate::syllable;
use rayon::iter::{IntoParallelIterator, ParallelIterator};
use vstd::prelude::*;
use vstd::utf8::*;

verus! {

/// Number of letters.
pub const LETTERS: u8 = 26;

/// Number of two-letter prefixes, one task each.
pub const PREFIXES: u16 = 676;

/// A name that passed every filter, with its average score.
#[derive(Clone, Debug)]
pub struct Candidate<S> {
    pub name: String,
    pub score: S,
}

/// What to scan for. The score threshold is part of the arithmetic that the
/// caller supplies.
pub struct ScanOpts {
    pub len: usize,
    pub min_syl: usize,
    pub max_syl: usize,
}

/// The text of a word of symbols.
pub open spec fn text_of(w: Seq<u8>) -> Seq<char> {
    w.map_values(|s: u8| (s + LETTER_A) as u8 as char)
}

/// The bytes of a word of symbols.
pub open spec fn bytes_of(w: Seq<u8>) -> Seq<u8> {
    w.map_values(|s: u8| (s + LETTER_A) as u8)
}

/// A word of `len` letters.
pub open spec fn is_word(w: Seq<u8>, len: nat) -> bool {
    &&& w.len() == len
    &&& forall|i: int| 0 <= i < w.len() ==> #[trigger] w[i] < LETTERS
}

/// A word of the right length that passes the structural filters.
pub open spec fn is_well_formed(w: Seq<u8>, o: ScanOpts) -> bool {
    &&& is_word(w, o.len as nat)
    &&& syllable::is_plausible(bytes_of(w))
    &&& syllable::in_syllable_range(bytes_of(w), o.min_syl as nat, o.max_syl as nat)
}

/// `x` comes before `y` in the dictionary.
pub open spec fn precedes(x: Seq<u8>, y: Seq<u8>) -> bool {
    exists|d: int|
        0 <= d < x.len() && d < y.len() && #[trigger] x[d] < y[d] && x.take(d) == y.take(d)
}

/// `sums` accumulates the log probabilities of the first transitions of `w`.
pub open spec fn is_partial_score<S, A: Fn(S, S) -> S>(
    table: Seq<S>,
    w: Seq<u8>,
    plus: A,
    sums: Seq<S>,
) -> bool {
    &&& 1 <= sums.len() <= w.len() + 1
    &&& sums[0] == table[markov::lookup(w, 0)]
    &&& forall|i: int| 1 <= i < sums.len() ==> #[trigger] adds_at(table, w, plus, sums, i)
}

/// The sum at `i` is the one before it and the log probability of transition `i`.
pub open spec fn adds_at<S, A: Fn(S, S) -> S>(
    table: Seq<S>,
    w: Seq<u8>,
    plus: A,
    sums: Seq<S>,
    i: int,
) -> bool {
    call_ensures(plus, (sums[i - 1], table[markov::lookup(w, i)]), sums[i])
}

/// The score of `w` was high enough at every prefix of two letters or more,
/// and at the end of the word, and averages to `score`.
pub open spec fn is_kept<S, A: Fn(S, S) -> S, K: Fn(S) -> bool, D: Fn(S, usize) -> S>(
    table: Seq<S>,
    w: Seq<u8>,
    plus: A,
    keep: K,
    average: D,
    score: S,
) -> bool {
    exists|sums: Seq<S>|
        {
            &&& #[trigger] is_partial_score(table, w, plus, sums)
            &&& sums.len() == w.len() + 1
            &&& forall|i: int|
                1 <= i < sums.len() ==> call_ensures(keep, (#[trigger] sums[i],), true)
            &&& call_ensures(average, (sums.last(), (w.len() + 1) as usize), score)
        }
}

/// The score of `w` was too low at some prefix of two letters or more, or at
/// the end of the word.
pub open spec fn is_pruned<S, A: Fn(S, S) -> S, K: Fn(S) -> bool>(
    table: Seq<S>,
    w: Seq<u8>,
    plus: A,
    keep: K,
) -> bool {
    exists|sums: Seq<S>|
        {
            &&& #[trigger] is_partial_score(table, w, plus, sums)
            &&& sums.len() >= 2
            &&& call_ensures(keep, (sums.last(),), false)
        }
}

/// `found` is the candidate of the word `w`, one of those selected by `among`.
pub open spec fn is_candidate<S, A: Fn(S, S) -> S, K: Fn(S) -> bool, D: Fn(S, usize) -> S>(
    table: Seq<S>,
    o: ScanOpts,
    plus: A,
    keep: K,
    average: D,
    among: spec_fn(Seq<u8>) -> bool,
    w: Seq<u8>,
    found: Candidate<S>,
) -> bool {
    &&& among(w)
    &&& is_well_formed(w, o)
    &&& found.name@ == text_of(w)
    &&& is_kept(table, w, plus, keep, average, found.score)
}

/// `out` lists in dictionary order the candidates of `words`, which are all the
/// well-formed words among those selected by `among` that were not pruned.
pub open spec fn is_listing<S, A: Fn(S, S) -> S, K: Fn(S) -> bool, D: Fn(S, usize) -> S>(
    table: Seq<S>,
    o: ScanOpts,
    plus: A,
    keep: K,
    average: D,
    among: spec_fn(Seq<u8>) -> bool,
    words: Seq<Seq<u8>>,
    out: Seq<Candidate<S>>,
) -> bool {
    &&& words.len() == out.len()
    &&& forall|i: int|
        0 <= i < out.len() ==> is_candidate(
            table,
            o,
            plus,
            keep,
            average,
            among,
            words[i],
            #[trigger] out[i],
        )
    &&& forall|i: int, j: int|
        0 <= i < j < words.len() ==> precedes(#[trigger] words[i], #[trigger] words[j])
    &&& forall|w: Seq<u8>| #[trigger]
        is_well_formed(w, o) && among(w) ==> is_pruned(table, w, plus, keep) || words.contains(w)
}

/// `out` lists in dictionary order the candidates of all the well-formed words
/// among those selected by `among` that were not pruned.
pub open spec fn lists<S, A: Fn(S, S) -> S, K: Fn(S) -> bool, D: Fn(S, usize) -> S>(
    table: Seq<S>,
    o: ScanOpts,
    plus: A,
    keep: K,
    average: D,
    among: spec_fn(Seq<u8>) -> bool,
    out: Seq<Candidate<S>>,
) -> bool {
    exists|words: Seq<Seq<u8>>| #[trigger]
        is_listing(table, o, plus, keep, average, among, words, out)
}

/// The lookups of a word up to the end of a prefix are those of the prefix.
proof fn lemma_lookup_prefix(w: Seq<u8>, p: Seq<u8>, i: int)
    requires
        0 <= i < p.len() <= w.len(),
        w.take(p.len() as int) == p,
    ensures
        markov::lookup(w, i) == markov::lookup(p, i),
{
    assert(w.take(i) =~= p.take(i));
    assert(w[i] == p[i]);
}

/// A partial score of a prefix is one of every word that extends it.
proof fn lemma_partial_score_extends<S, A: Fn(S, S) -> S>(
    table: Seq<S>,
    w: Seq<u8>,
    p: Seq<u8>,
    plus: A,
    sums: Seq<S>,
)
    requires
        p.len() <= w.len(),
        w.take(p.len() as int) == p,
        sums.len() <= p.len(),
        is_partial_score(table, p, plus, sums),
    ensures
        is_partial_score(table, w, plus, sums),
{
    lemma_lookup_prefix(w, p, 0);
    assert forall|i: int| 1 <= i < sums.len() implies #[trigger] adds_at(
        table,
        w,
        plus,
        sums,
        i,
    ) by {
        assert(adds_at(table, p, plus, sums, i));
        lemma_lookup_prefix(w, p, i);
    }
}

/// A partial score with one more transition.
proof fn lemma_one_more<S, A: Fn(S, S) -> S>(
    table: Seq<S>,
    w: Seq<u8>,
    plus: A,
    sums: Seq<S>,
    total: S,
)
    requires
        is_partial_score(table, w, plus, sums),
        sums.len() <= w.len(),
        call_ensures(plus, (sums.last(), table[markov::lookup(w, sums.len() as int)]), total),
    ensures
        is_partial_score(table, w, plus, sums.push(total)),
{
    let more = sums.push(total);
    assert forall|i: int| 1 <= i < more.len() implies #[trigger] adds_at(
        table,
        w,
        plus,
        more,
        i,
    ) by {
        if i < sums.len() {
            assert(adds_at(table, w, plus, sums, i));
        }
    }
}

/// Two listings, the second of words that come later, make one.
proof fn lemma_join_listings<S, A: Fn(S, S) -> S, K: Fn(S) -> bool, D: Fn(S, usize) -> S>(
    table: Seq<S>,
    o: ScanOpts,
    plus: A,
    keep: K,
    average: D,
    among1: spec_fn(Seq<u8>) -> bool,
    words1: Seq<Seq<u8>>,
    out1: Seq<Candidate<S>>,
    among2: spec_fn(Seq<u8>) -> bool,
    words2: Seq<Seq<u8>>,
    out2: Seq<Candidate<S>>,
    among: spec_fn(Seq<u8>) -> bool,
)
    requires
        is_listing(table, o, plus, keep, average, among1, words1, out1),
        is_listing(table, o, plus, keep, average, among2, words2, out2),
        forall|w: Seq<u8>| #[trigger]
            is_word(w, o.len as nat) ==> among(w) == (among1(w) || among2(w)),
        forall|x: Seq<u8>, y: Seq<u8>|
            #![trigger is_word(x, o.len as nat), is_word(y, o.len as nat)]
            is_word(x, o.len as nat) && is_word(y, o.len as nat) && among1(x) && among2(y)
                ==> precedes(x, y),
    ensures
        is_listing(table, o, plus, keep, average, among, words1 + words2, out1 + out2),
{
    let words = words1 + words2;
    let out = out1 + out2;
    assert forall|i: int| 0 <= i < out.len() implies is_candidate(
        table,
        o,
        plus,
        keep,
        average,
        among,
        words[i],
        #[trigger] out[i],
    ) by {
        if i < out1.len() {
            assert(out[i] == out1[i] && words[i] == words1[i]);
        } else {
            assert(out[i] == out2[i - out1.len()] && words[i] == words2[i - out1.len()]);
        }
        assert(is_word(words[i], o.len as nat));
    }
    assert forall|i: int, j: int| 0 <= i < j < words.len() implies precedes(
        #[trigger] words[i],
        #[trigger] words[j],
    ) by {
        if j < words1.len() {
            assert(words[i] == words1[i] && words[j] == words1[j]);
        } else if i >= words1.len() {
            assert(words[i] == words2[i - words1.len()] && words[j] == words2[j - words1.len()]);
        } else {
            assert(is_candidate(table, o, plus, keep, average, among1, words1[i], out1[i]));
            assert(is_candidate(
                table,
                o,
                plus,
                keep,
                average,
                among2,
                words2[j - words1.len()],
                out2[j - out1.len()],
            ));
            assert(among1(words1[i]) && is_word(words1[i], o.len as nat));
            assert(among2(words2[j - words1.len()]) && is_word(
                words2[j - words1.len()],
                o.len as nat,
            ));
            assert(words[i] == words1[i] && words[j] == words2[j - words1.len()]);
        }
    }
    assert forall|w: Seq<u8>| #[trigger] is_well_formed(w, o) && among(w) implies is_pruned(
        table,
        w,
        plus,
        keep,
    ) || words.contains(w) by {
        assert(is_word(w, o.len as nat));
        if among1(w) && words1.contains(w) {
            let i = choose|i: int| 0 <= i < words1.len() && words1[i] == w;
            assert(words[i] == w);
        }
        if among2(w) && words2.contains(w) {
            let i = choose|i: int| 0 <= i < words2.len() && words2[i] == w;
            assert(words[words1.len() + i] == w);
        }
    }
}

/// A listing of nothing, when every word in question was pruned.
proof fn lemma_all_pruned<S, A: Fn(S, S) -> S, K: Fn(S) -> bool, D: Fn(S, usize) -> S>(
    table: Seq<S>,
    o: ScanOpts,
    plus: A,
    keep: K,
    average: D,
    p: Seq<u8>,
    sums: Seq<S>,
)
    requires
        2 <= p.len() <= o.len,
        sums.len() == p.len(),
        is_partial_score(table, p, plus, sums),
        call_ensures(keep, (sums.last(),), false),
    ensures
        is_listing(
            table,
            o,
            plus,
            keep,
            average,
            extending(p),
            Seq::<Seq<u8>>::empty(),
            Seq::<Candidate<S>>::empty(),
        ),
{
    assert forall|w: Seq<u8>| #[trigger] is_well_formed(w, o) && extending(p)(w) implies is_pruned(
        table,
        w,
        plus,
        keep,
    ) by {
        lemma_partial_score_extends(table, w, p, plus, sums);
    }
}

/// All words.
pub open spec fn every_word() -> spec_fn(Seq<u8>) -> bool {
    |w: Seq<u8>| true
}

/// The words that start with `p`.
pub open spec fn extending(p: Seq<u8>) -> spec_fn(Seq<u8>) -> bool {
    |w: Seq<u8>| p.len() <= w.len() && w.take(p.len() as int) == p
}

/// The words that start with `p` and go on with a letter before `s`.
spec fn extending_below(p: Seq<u8>, s: int) -> spec_fn(Seq<u8>) -> bool {
    |w: Seq<u8>| p.len() < w.len() && w.take(p.len() as int) == p && w[p.len() as int] < s
}

/// Words that go on with an earlier letter precede those that go on with `s`.
proof fn lemma_below_precedes(p: Seq<u8>, s: u8, x: Seq<u8>, y: Seq<u8>)
    requires
        extending_below(p, s as int)(x),
        extending(p.push(s))(y),
    ensures
        precedes(x, y),
{
    let d = p.len() as int;
    assert(y.take(d) =~= y.take(d + 1).take(d));
    assert(p.push(s).take(d) =~= p);
    assert(y[d] == y.take(d + 1)[d]);
    assert(x[d] < y[d]);
}

/// Going on with a letter below `s + 1` is going on below `s` or with `s`.
proof fn lemma_below_step(p: Seq<u8>, s: u8, w: Seq<u8>)
    requires
        p.len() < w.len(),
    ensures
        extending_below(p, s + 1)(w) == (extending_below(p, s as int)(w) || extending(p.push(s))(
            w,
        )),
{
    let d = p.len() as int;
    assert(w.take(d + 1) =~= w.take(d).push(w[d]));
    if extending(p.push(s))(w) {
        assert(w.take(d) =~= w.take(d + 1).take(d));
        assert(p.push(s).take(d) =~= p);
        assert(w[d] == w.take(d + 1)[d]);
    }
}

/// Lists the words below one prefix. `buf` holds the prefix in its first `pos`
/// places, `acc` its score so far.
fn descend<S: Copy, A: Fn(S, S) -> S, K: Fn(S) -> bool, D: Fn(S, usize) -> S>(
    m: &Markov<S>,
    o: &ScanOpts,
    plus: &A,
    keep: &K,
    average: &D,
    buf: &mut Vec<u8>,
    pos: usize,
    ctx: usize,
    acc: S,
    out: &mut Vec<Candidate<S>>,
    Ghost(sums): Ghost<Seq<S>>,
) -> (words: Ghost<Seq<Seq<u8>>>)
    requires
        m.wf(),
        o.len < usize::MAX,
        2 <= pos <= o.len,
        old(buf)@.len() == o.len,
        forall|i: int| 0 <= i < pos ==> #[trigger] old(buf)@[i] < LETTERS,
        ctx == markov::context_after(old(buf)@.take(pos as int)),
        sums.len() == pos,
        sums.last() == acc,
        is_partial_score(m.table(), old(buf)@.take(pos as int), *plus, sums),
        forall|i: int| 1 <= i < pos ==> call_ensures(*keep, (#[trigger] sums[i],), true),
        forall|x: S, y: S| call_requires(*plus, (x, y)),
        forall|x: S| call_requires(*keep, (x,)),
        forall|x: S, n: usize| call_requires(*average, (x, n)),
    ensures
        final(buf)@.len() == o.len,
        final(buf)@.take(pos as int) == old(buf)@.take(pos as int),
        final(out)@.len() >= old(out)@.len(),
        final(out)@.take(old(out)@.len() as int) == old(out)@,
        is_listing(
            m.table(),
            *o,
            *plus,
            *keep,
            *average,
            extending(old(buf)@.take(pos as int)),
            words@,
            final(out)@.skip(old(out)@.len() as int),
        ),
    decreases o.len - pos,
{
    let ghost table = m.table();
    let ghost p = buf@.take(pos as int);
    let ghost start = out@;
    if pos == o.len {
        assert(buf@ =~= p);
        proof {
            markov::lookups_are_counted_transitions(p, pos as int);
            assert(p.take(pos as int) =~= p);
        }
        let total: S = (*plus)(acc, m.logp(ctx, BOUND));
        let ghost all = sums.push(total);
        proof {
            lemma_one_more(table, p, *plus, sums, total);
        }
        assert forall|w: Seq<u8>| #[trigger] is_well_formed(w, *o) && extending(p)(w) implies w
            == p by {
            assert(w =~= w.take(pos as int));
        }
        if !(*keep)(total) {
            assert(is_pruned(table, p, *plus, *keep));
            assert(out@.skip(start.len() as int) =~= Seq::empty());
            return Ghost(Seq::empty());
        }
        // Structural filters apply only here: they cost much more than a table
        // lookup, and the threshold has already rejected the vast majority.
        let word = to_bytes(buf);
        if !syllable::plausible(word.as_slice()) || !syllable::is_pronounceable(
            word.as_slice(),
            o.min_syl,
            o.max_syl,
        ) {
            assert(!is_well_formed(p, *o));
            assert(out@.skip(start.len() as int) =~= Seq::empty());
            return Ghost(Seq::empty());
        }
        let score: S = (*average)(total, o.len + 1);
        let found = Candidate { name: to_text(buf), score };
        out.push(found);
        proof {
            assert forall|i: int| 1 <= i < all.len() implies call_ensures(
                *keep,
                (#[trigger] all[i],),
                true,
            ) by {
                if i < pos {
                    assert(all[i] == sums[i]);
                }
            }
            assert(is_kept(table, p, *plus, *keep, *average, score));
            assert(extending(p)(p)) by {
                assert(p.take(pos as int) =~= p);
            }
            let words = seq![p];
            assert(out@.skip(start.len() as int) =~= seq![found]);
            assert(words[0] == p);
            assert(words.contains(p));
            assert(is_listing(table, *o, *plus, *keep, *average, extending(p), words, seq![found]));
        }
        let ghost only = seq![p];
        return Ghost(only);
    }
    let mut words: Ghost<Seq<Seq<u8>>> = Ghost(Seq::empty());
    assert(out@.skip(start.len() as int) =~= Seq::empty());
    for s in 0..LETTERS
        invariant
            m.wf(),
            o.len < usize::MAX,
            2 <= pos < o.len,
            table == m.table(),
            buf@.len() == o.len,
            buf@.take(pos as int) == p,
            p.len() == pos,
            forall|i: int| 0 <= i < pos ==> #[trigger] p[i] < LETTERS,
            ctx == markov::context_after(p),
            sums.len() == pos,
            sums.last() == acc,
            is_partial_score(table, p, *plus, sums),
            forall|i: int| 1 <= i < pos ==> call_ensures(*keep, (#[trigger] sums[i],), true),
            forall|x: S, y: S| call_requires(*plus, (x, y)),
            forall|x: S| call_requires(*keep, (x,)),
            forall|x: S, n: usize| call_requires(*average, (x, n)),
            out@.len() >= start.len(),
            out@.take(start.len() as int) == start,
            is_listing(
                table,
                *o,
                *plus,
                *keep,
                *average,
                extending_below(p, s as int),
                words@,
                out@.skip(start.len() as int),
            ),
    {
        let ghost q = p.push(s);
        let ghost so_far = out@;
        proof {
            assert(q.take(pos as int) =~= p);
            assert forall|i: int| 0 <= i < q.len() implies #[trigger] q[i] <= BOUND by {
                if i < pos {
                    assert(q[i] == p[i]);
                }
            }
            markov::lookups_are_counted_transitions(q, pos as int);
            assert(q.push(BOUND)[pos as int] == s);
        }
        let next: S = (*plus)(acc, m.logp(ctx, s));
        let ghost longer = sums.push(next);
        proof {
            lemma_partial_score_extends(table, q, p, *plus, sums);
            lemma_one_more(table, q, *plus, sums, next);
        }
        let kept = (*keep)(next);
        let mut below: Ghost<Seq<Seq<u8>>> = Ghost(Seq::empty());
        if !kept {
            // dead branch: the cumulative score cannot recover
            proof {
                lemma_all_pruned(table, *o, *plus, *keep, *average, q, longer);
                assert(out@.skip(so_far.len() as int) =~= Seq::empty());
            }
        } else {
            buf.set(pos, s);
            proof {
                assert(buf@.take(pos + 1) =~= q);
                assert(q.drop_last() =~= p);
                assert forall|i: int| 1 <= i < pos + 1 implies call_ensures(
                    *keep,
                    (#[trigger] longer[i],),
                    true,
                ) by {
                    if i < pos {
                        assert(longer[i] == sums[i]);
                    }
                }
                assert forall|i: int| 0 <= i < pos + 1 implies #[trigger] buf@[i] < LETTERS by {
                    assert(buf@[i] == q[i]);
                    if i < pos {
                        assert(q[i] == p[i]);
                    }
                }
            }
            below = descend(
                m,
                o,
                plus,
                keep,
                average,
                buf,
                pos + 1,
                Markov::<S>::advance(ctx, s),
                next,
                out,
                Ghost(longer),
            );
            proof {
                assert(buf@.take(pos as int) =~= buf@.take(pos + 1).take(pos as int));
                assert(out@.take(start.len() as int) =~= out@.take(so_far.len() as int).take(
                    start.len() as int,
                ));
            }
        }
        proof {
            let first = so_far.skip(start.len() as int);
            let second = out@.skip(so_far.len() as int);
            assert forall|w: Seq<u8>| #[trigger] is_word(w, o.len as nat) implies extending_below(
                p,
                s + 1,
            )(w) == (extending_below(p, s as int)(w) || extending(q)(w)) by {
                lemma_below_step(p, s, w);
            }
            assert forall|x: Seq<u8>, y: Seq<u8>|
                #![trigger is_word(x, o.len as nat), is_word(y, o.len as nat)]
                is_word(x, o.len as nat) && is_word(y, o.len as nat) && extending_below(
                    p,
                    s as int,
                )(x) && extending(q)(y) implies precedes(x, y) by {
                lemma_below_precedes(p, s, x, y);
            }
            lemma_join_listings(
                table,
                *o,
                *plus,
                *keep,
                *average,
                extending_below(p, s as int),
                words@,
                first,
                extending(q),
                below@,
                second,
                extending_below(p, s + 1),
            );
            assert(out@.skip(start.len() as int) =~= first + second) by {
                assert(so_far =~= out@.take(so_far.len() as int));
            }
        }
        words = Ghost(words@ + below@);
    }
    proof {
        lemma_reselect(
            table,
            *o,
            *plus,
            *keep,
            *average,
            extending_below(p, LETTERS as int),
            extending(p),
            words@,
            out@.skip(start.len() as int),
        );
    }
    words
}

/// A listing stays one under another description of the same words.
proof fn lemma_reselect<S, A: Fn(S, S) -> S, K: Fn(S) -> bool, D: Fn(S, usize) -> S>(
    table: Seq<S>,
    o: ScanOpts,
    plus: A,
    keep: K,
    average: D,
    from: spec_fn(Seq<u8>) -> bool,
    to: spec_fn(Seq<u8>) -> bool,
    words: Seq<Seq<u8>>,
    out: Seq<Candidate<S>>,
)
    requires
        is_listing(table, o, plus, keep, average, from, words, out),
        forall|w: Seq<u8>| #[trigger] is_word(w, o.len as nat) ==> from(w) == to(w),
    ensures
        is_listing(table, o, plus, keep, average, to, words, out),
{
    assert forall|i: int| 0 <= i < out.len() implies is_candidate(
        table,
        o,
        plus,
        keep,
        average,
        to,
        words[i],
        #[trigger] out[i],
    ) by {
        assert(is_candidate(table, o, plus, keep, average, from, words[i], out[i]));
        assert(is_word(words[i], o.len as nat));
    }
    assert forall|w: Seq<u8>| #[trigger] is_well_formed(w, o) && to(w) implies is_pruned(
        table,
        w,
        plus,
        keep,
    ) || words.contains(w) by {
        assert(is_word(w, o.len as nat));
    }
}

/// Lists the words that start with the two letters of prefix number `prefix`.
fn scan_prefix<S: Copy, A: Fn(S, S) -> S, K: Fn(S) -> bool, D: Fn(S, usize) -> S>(
    m: &Markov<S>,
    o: &ScanOpts,
    plus: &A,
    keep: &K,
    average: &D,
    prefix: u16,
) -> (out: Vec<Candidate<S>>)
    requires
        m.wf(),
        3 <= o.len < usize::MAX,
        prefix < PREFIXES,
        forall|x: S, y: S| call_requires(*plus, (x, y)),
        forall|x: S| call_requires(*keep, (x,)),
        forall|x: S, n: usize| call_requires(*average, (x, n)),
    ensures
        lists_prefix(m, o, plus, keep, average, prefix, out@),
{
    let ghost table = m.table();
    let c0: u8 = (prefix / 26) as u8;
    let c1: u8 = (prefix % 26) as u8;
    let ghost p = prefix_word(prefix as int);
    let mut buf: Vec<u8> = vec![0; o.len];
    let mut out: Vec<Candidate<S>> = Vec::new();
    let start = Markov::<S>::ctx(BOUND, BOUND, BOUND);
    proof {
        assert(p =~= seq![c0, c1]);
        assert forall|i: int| 0 <= i < p.len() implies #[trigger] p[i] <= BOUND by {}
        markov::lookups_are_counted_transitions(p, 0);
        markov::lookups_are_counted_transitions(p, 1);
        assert(p.take(0) =~= Seq::<u8>::empty());
        assert(p.take(1).drop_last() =~= Seq::<u8>::empty());
        assert(p.take(1).last() == c0);
        assert(p.push(BOUND)[0] == c0);
        assert(p.push(BOUND)[1] == c1);
        assert(p.drop_last() =~= p.take(1));
    }
    let first: S = m.logp(start, c0);
    let ctx = Markov::<S>::advance(start, c0);
    let acc: S = (*plus)(first, m.logp(ctx, c1));
    let ctx = Markov::<S>::advance(ctx, c1);
    buf.set(0, c0);
    buf.set(1, c1);
    let ghost sums = seq![first, acc];
    proof {
        lemma_one_more(table, p, *plus, seq![first], acc);
        assert(seq![first].push(acc) =~= sums);
    }
    if (*keep)(acc) {
        assert(buf@.take(2) =~= p);
        let words = descend(
            m,
            o,
            plus,
            keep,
            average,
            &mut buf,
            2,
            ctx,
            acc,
            &mut out,
            Ghost(sums),
        );
        assert(out@.skip(0) =~= out@);
        assert(is_listing(table, *o, *plus, *keep, *average, extending(p), words@, out@));
    } else {
        proof {
            lemma_all_pruned(table, *o, *plus, *keep, *average, p, sums);
            assert(out@ =~= Seq::empty());
        }
    }
    out
}

/// `out` lists the words that start with the two letters of a prefix number.
spec fn lists_prefix<S, A: Fn(S, S) -> S, K: Fn(S) -> bool, D: Fn(S, usize) -> S>(
    m: &Markov<S>,
    o: &ScanOpts,
    plus: &A,
    keep: &K,
    average: &D,
    prefix: u16,
    out: Seq<Candidate<S>>,
) -> bool {
    lists(m.table(), *o, *plus, *keep, *average, extending(prefix_word(prefix as int)), out)
}

/// The two letters of a prefix number.
pub open spec fn prefix_word(prefix: int) -> Seq<u8> {
    seq![(prefix / 26) as u8, (prefix % 26) as u8]
}

/// The words whose first two letters have a number below `n`.
spec fn numbered_below(n: int) -> spec_fn(Seq<u8>) -> bool {
    |w: Seq<u8>| w.len() >= 2 && w[0] * 26 + w[1] < n
}

/// Hands the numbers below `n` out to threads and collects what `f` returns.
///
/// Calls `rayon::iter::ParallelIterator::flat_map_iter` on the parallel iterator
/// of a range, and `collect` on the result. Claimed of them: `f` is called on
/// every number below `n`, and the items of the returned vectors stand one after
/// the other in the order of the numbers, whatever the order of the calls.
#[verifier::external_body]
fn flat_map_in_order<T: Send, F: Fn(u16) -> Vec<T> + Sync + Send>(n: u16, f: F) -> (out: Vec<T>)
    requires
        forall|i: u16| i < n ==> call_requires(f, (i,)),
    ensures
        exists|parts: Seq<Vec<T>>| #[trigger] is_in_order(n, f, parts, out@),
{
    (0..n).into_par_iter().flat_map_iter(|i| f(i)).collect()
}

/// `out` is what `f` returns for every number below `n`, one after the other.
pub open spec fn is_in_order<T, F: Fn(u16) -> Vec<T>>(
    n: u16,
    f: F,
    parts: Seq<Vec<T>>,
    out: Seq<T>,
) -> bool {
    &&& parts.len() == n
    &&& forall|i: int| 0 <= i < n ==> call_ensures(f, (i as u16,), #[trigger] parts[i])
    &&& out == parts.map_values(|v: Vec<T>| v@).flatten()
}

/// Lists every well-formed name of the given length whose score is high enough,
/// in dictionary order. `plus` adds a log probability to a score, `keep` tells
/// whether a score is still high enough, and `average` divides the final score
/// by the number of transitions.
///
/// The work is spread over the first two letters: 676 tasks, each large compared
/// with scheduling overhead and numerous enough to balance the workload.
pub fn scan<S, A, K, D>(m: &Markov<S>, o: &ScanOpts, plus: A, keep: K, average: D) -> (out: Vec<
    Candidate<S>,
>) where
    S: Copy + Send + Sync,
    A: Fn(S, S) -> S + Sync + Send,
    K: Fn(S) -> bool + Sync + Send,
    D: Fn(S, usize) -> S + Sync + Send,

    requires
        3 <= o.len < usize::MAX,
        forall|x: S, y: S| call_requires(plus, (x, y)),
        forall|x: S| call_requires(keep, (x,)),
        forall|x: S, n: usize| call_requires(average, (x, n)),
    ensures
        lists(m.table(), *o, plus, keep, average, every_word(), out@),
{
    proof {
        use_type_invariant(m);
    }
    let ghost table = m.table();
    let a = &plus;
    let k = &keep;
    let d = &average;
    let task = |i: u16| -> (r: Vec<Candidate<S>>)
        requires
            i < PREFIXES,
        ensures
            lists_prefix(m, o, a, k, d, i, r@),
        { scan_prefix(m, o, a, k, d, i) };
    let out = flat_map_in_order(PREFIXES, task);
    proof {
        let parts = choose|parts: Seq<Vec<Candidate<S>>>| #[trigger]
            is_in_order(PREFIXES, task, parts, out@);
        assert forall|i: int| 0 <= i < PREFIXES implies lists(
            table,
            *o,
            plus,
            keep,
            average,
            extending(prefix_word(i)),
            (#[trigger] parts[i])@,
        ) by {
            assert(call_ensures(task, (i as u16,), parts[i]));
        }
        let words = lemma_join_prefixes(table, *o, plus, keep, average, parts, PREFIXES as int);
        assert(parts.take(PREFIXES as int) =~= parts);
        lemma_reselect(
            table,
            *o,
            plus,
            keep,
            average,
            numbered_below(PREFIXES as int),
            every_word(),
            words,
            out@,
        );
    }
    out
}

/// The listings of the first `n` prefixes make the listing of all their words.
proof fn lemma_join_prefixes<S, A: Fn(S, S) -> S, K: Fn(S) -> bool, D: Fn(S, usize) -> S>(
    table: Seq<S>,
    o: ScanOpts,
    plus: A,
    keep: K,
    average: D,
    parts: Seq<Vec<Candidate<S>>>,
    n: int,
) -> (words: Seq<Seq<u8>>)
    requires
        o.len >= 2,
        0 <= n <= parts.len() == PREFIXES,
        forall|i: int|
            0 <= i < PREFIXES ==> lists(
                table,
                o,
                plus,
                keep,
                average,
                extending(prefix_word(i)),
                (#[trigger] parts[i])@,
            ),
    ensures
        is_listing(
            table,
            o,
            plus,
            keep,
            average,
            numbered_below(n),
            words,
            parts.take(n).map_values(|v: Vec<Candidate<S>>| v@).flatten(),
        ),
    decreases n,
{
    let view = |v: Vec<Candidate<S>>| v@;
    if n == 0 {
        assert(parts.take(0).map_values(view).flatten() =~= Seq::empty());
        let words = Seq::<Seq<u8>>::empty();
        assert(is_listing(table, o, plus, keep, average, numbered_below(0), words, Seq::empty()));
        words
    } else {
        let words1 = lemma_join_prefixes(table, o, plus, keep, average, parts, n - 1);
        let p = prefix_word(n - 1);
        let last = parts[n - 1];
        assert(lists(table, o, plus, keep, average, extending(p), last@));
        let words2 = choose|words: Seq<Seq<u8>>| #[trigger]
            is_listing(table, o, plus, keep, average, extending(p), words, last@);
        let out1 = parts.take(n - 1).map_values(view).flatten();
        assert(parts.take(n).map_values(view) =~= parts.take(n - 1).map_values(view).push(last@));
        parts.take(n - 1).map_values(view).lemma_flatten_push(last@);
        assert forall|w: Seq<u8>| #[trigger] is_word(w, o.len as nat) implies numbered_below(n)(w)
            == (numbered_below(n - 1)(w) || extending(p)(w)) by {
            assert(w[0] < LETTERS && w[1] < LETTERS);
            assert(w.take(2) =~= seq![w[0], w[1]]);
            if extending(p)(w) {
                assert(w.take(2)[0] == p[0] && w.take(2)[1] == p[1]);
            }
            if w[0] * 26 + w[1] == n - 1 {
                assert((n - 1) / 26 == w[0] && (n - 1) % 26 == w[1]);
                assert(w.take(2) =~= p);
            }
        }
        assert forall|x: Seq<u8>, y: Seq<u8>|
            #![trigger is_word(x, o.len as nat), is_word(y, o.len as nat)]
            is_word(x, o.len as nat) && is_word(y, o.len as nat) && numbered_below(n - 1)(x)
                && extending(p)(y) implies precedes(x, y) by {
            assert(x[0] < LETTERS && x[1] < LETTERS && y[0] < LETTERS && y[1] < LETTERS);
            assert(y.take(2)[0] == p[0] && y.take(2)[1] == p[1]);
            assert(y[0] == y.take(2)[0] && y[1] == y.take(2)[1]);
            if x[0] < y[0] {
                assert(x.take(0) =~= y.take(0));
            } else {
                assert(x[0] == y[0] && x[1] < y[1]);
                assert(x.take(1) =~= y.take(1));
            }
        }
        lemma_join_listings(
            table,
            o,
            plus,
            keep,
            average,
            numbered_below(n - 1),
            words1,
            out1,
            extending(p),
            words2,
            last@,
            numbered_below(n),
        );
        words1 + words2
    }
}

/// The bytes of a word of symbols.
fn to_bytes(buf: &Vec<u8>) -> (r: Vec<u8>)
    requires
        forall|i: int| 0 <= i < buf@.len() ==> #[trigger] buf@[i] < LETTERS,
    ensures
        r@ == bytes_of(buf@),
{
    let mut r: Vec<u8> = Vec::new();
    for i in 0..buf.len()
        invariant
            forall|j: int| 0 <= j < buf@.len() ==> #[trigger] buf@[j] < LETTERS,
            r@ =~= bytes_of(buf@).take(i as int),
    {
        r.push(buf[i] + LETTER_A);
    }
    r
}

/// The text of a word of symbols.
fn to_text(buf: &Vec<u8>) -> (r: String)
    requires
        forall|i: int| 0 <= i < buf@.len() ==> #[trigger] buf@[i] < LETTERS,
    ensures
        r@ == text_of(buf@),
{
    let mut r = String::new();
    for i in 0..buf.len()
        invariant
            forall|j: int| 0 <= j < buf@.len() ==> #[trigger] buf@[j] < LETTERS,
            r@ =~= text_of(buf@).take(i as int),
    {
        r.push((buf[i] + LETTER_A) as char);
    }
    assert(text_of(buf@).take(buf@.len() as int) =~= text_of(buf@));
    r
}

/// The operation has one result for each pair of arguments.
pub open spec fn is_function<S, A: Fn(S, S) -> S>(plus: A) -> bool {
    forall|x: S, y: S, u: S, v: S|
        call_ensures(plus, (x, y), u) && call_ensures(plus, (x, y), v) ==> u == v
}

/// `keep` turns down exactly the scores that are `low`.
pub open spec fn turns_down<S, K: Fn(S) -> bool>(keep: K, low: spec_fn(S) -> bool) -> bool {
    forall|x: S, r: bool| #[trigger] call_ensures(keep, (x,), r) ==> r == !low(x)
}

/// A score that is low stays low whatever log probability is added.
pub open spec fn never_recovers<S, A: Fn(S, S) -> S>(
    table: Seq<S>,
    plus: A,
    low: spec_fn(S) -> bool,
) -> bool {
    forall|x: S, i: int, z: S|
        0 <= i < table.len() && low(x) && #[trigger] call_ensures(plus, (x, table[i]), z) ==> low(
            z,
        )
}

/// With a functional sum, two partial scores of a word agree where both exist.
proof fn lemma_partial_scores_agree<S, A: Fn(S, S) -> S>(
    table: Seq<S>,
    w: Seq<u8>,
    plus: A,
    s: Seq<S>,
    t: Seq<S>,
    i: int,
)
    requires
        is_function(plus),
        is_partial_score(table, w, plus, s),
        is_partial_score(table, w, plus, t),
        0 <= i < s.len(),
        i < t.len(),
    ensures
        s[i] == t[i],
    decreases i,
{
    if i > 0 {
        lemma_partial_scores_agree(table, w, plus, s, t, i - 1);
        assert(adds_at(table, w, plus, s, i));
        assert(adds_at(table, w, plus, t, i));
    }
}

/// Once a score is low at some transition, it is low at every later one.
proof fn lemma_stays_low<S, A: Fn(S, S) -> S>(
    table: Seq<S>,
    w: Seq<u8>,
    plus: A,
    low: spec_fn(S) -> bool,
    sums: Seq<S>,
    i: int,
    j: int,
)
    requires
        table.len() == markov::N3 * ALPHA,
        forall|k: int| 0 <= k < w.len() ==> #[trigger] w[k] < LETTERS,
        never_recovers(table, plus, low),
        is_partial_score(table, w, plus, sums),
        0 <= i <= j < sums.len(),
        low(sums[i]),
    ensures
        low(sums[j]),
    decreases j - i,
{
    if i < j {
        lemma_stays_low(table, w, plus, low, sums, i, j - 1);
        markov::lookups_are_counted_transitions(w, j);
        assert(adds_at(table, w, plus, sums, j));
    }
}

/// Pruning loses nothing: when a low score never recovers, the complete score of
/// a word that was pruned is low.
pub proof fn pruning_loses_nothing<S, A: Fn(S, S) -> S, K: Fn(S) -> bool>(
    table: Seq<S>,
    w: Seq<u8>,
    plus: A,
    keep: K,
    low: spec_fn(S) -> bool,
    sums: Seq<S>,
)
    requires
        table.len() == markov::N3 * ALPHA,
        forall|k: int| 0 <= k < w.len() ==> #[trigger] w[k] < LETTERS,
        is_function(plus),
        turns_down(keep, low),
        never_recovers(table, plus, low),
        is_partial_score(table, w, plus, sums),
        sums.len() == w.len() + 1,
        is_pruned(table, w, plus, keep),
    ensures
        low(sums.last()),
{
    let t = choose|t: Seq<S>|
        {
            &&& #[trigger] is_partial_score(table, w, plus, t)
            &&& t.len() >= 2
            &&& call_ensures(keep, (t.last(),), false)
        };
    lemma_partial_scores_agree(table, w, plus, sums, t, t.len() - 1);
    lemma_stays_low(table, w, plus, low, sums, t.len() - 1, sums.len() - 1);
}

/// The scan is exhaustive and exact: when a low score never recovers, a
/// well-formed word is listed exactly when its complete score is not low.
pub proof fn listed_exactly_when_high_enough<
    S,
    A: Fn(S, S) -> S,
    K: Fn(S) -> bool,
    D: Fn(S, usize) -> S,
>(
    table: Seq<S>,
    o: ScanOpts,
    plus: A,
    keep: K,
    average: D,
    words: Seq<Seq<u8>>,
    out: Seq<Candidate<S>>,
    w: Seq<u8>,
    low: spec_fn(S) -> bool,
    sums: Seq<S>,
)
    requires
        table.len() == markov::N3 * ALPHA,
        is_function(plus),
        turns_down(keep, low),
        never_recovers(table, plus, low),
        is_listing(table, o, plus, keep, average, every_word(), words, out),
        is_well_formed(w, o),
        w.len() >= 1,
        is_partial_score(table, w, plus, sums),
        sums.len() == w.len() + 1,
    ensures
        words.contains(w) <==> !low(sums.last()),
{
    if words.contains(w) {
        let i = choose|i: int| 0 <= i < words.len() && words[i] == w;
        assert(is_candidate(table, o, plus, keep, average, every_word(), words[i], out[i]));
        let s = choose|s: Seq<S>|
            {
                &&& #[trigger] is_partial_score(table, w, plus, s)
                &&& s.len() == w.len() + 1
                &&& forall|i: int|
                    1 <= i < s.len() ==> call_ensures(keep, (#[trigger] s[i],), true)
                &&& call_ensures(average, (s.last(), (w.len() + 1) as usize), out[i].score)
            };
        lemma_partial_scores_agree(table, w, plus, s, sums, w.len() as int);
        assert(call_ensures(keep, (s[w.len() as int],), true));
    } else {
        assert(every_word()(w));
        pruning_loses_nothing(table, w, plus, keep, low, sums);
    }
}

/// The name of a candidate is made of the letters of its word, and only of
/// those; read as symbols again it is the word.
pub proof fn names_spell_their_words(w: Seq<u8>)
    requires
        forall|i: int| 0 <= i < w.len() ==> #[trigger] w[i] < LETTERS,
    ensures
        names::all_lowercase(text_of(w)),
        encode_utf8(text_of(w)) == bytes_of(w),
        markov::symbols_of(encode_utf8(text_of(w))) == w,
{
    let t = text_of(w);
    assert forall|i: int| 0 <= i < t.len() implies names::is_lowercase(#[trigger] t[i]) by {
        assert(w[i] < LETTERS);
        assert(t[i] == (w[i] + LETTER_A) as u8 as char);
    }
    names::lowercase_is_in_alphabet(t);
    assert forall|i: int| 0 <= i < t.len() implies #[trigger] encode_utf8(t)[i]
        == bytes_of(w)[i] by {
        assert(w[i] < LETTERS);
        assert(t[i] == (w[i] + LETTER_A) as u8 as char);
    }
    assert(encode_utf8(t) =~= bytes_of(w));
    assert forall|i: int| 0 <= i < w.len() implies #[trigger] markov::symbols_of(bytes_of(w))[i]
        == w[i] by {
        assert(w[i] < LETTERS);
    }
    assert(markov::symbols_of(bytes_of(w)) =~= w);
}

/// A score that starts from `zero` is one that starts with the first transition,
/// when adding to `zero` changes nothing.
proof fn lemma_score_from_zero<S, A: Fn(S, S) -> S>(
    table: Seq<S>,
    w: Seq<u8>,
    zero: S,
    plus: A,
    sums: Seq<S>,
)
    requires
        is_neutral(zero, plus),
        markov::is_running_sum(table, w, zero, plus, sums),
        sums.len() >= 2,
    ensures
        is_partial_score(table, w, plus, sums.drop_first()),
{
    let s = sums.drop_first();
    assert(markov::adds_at(table, w, plus, sums, 1));
    assert forall|i: int| 1 <= i < s.len() implies #[trigger] adds_at(table, w, plus, s, i) by {
        assert(markov::adds_at(table, w, plus, sums, i + 1));
    }
}

/// The division has at most one result.
pub open spec fn is_division<S, D: Fn(S, usize) -> S>(average: D) -> bool {
    forall|x: S, n: usize, u: S, v: S| #[trigger]
        call_ensures(average, (x, n), u) && #[trigger] call_ensures(average, (x, n), v) ==> u == v
}

/// Adding a log probability to `zero` gives that log probability.
pub open spec fn is_neutral<S, A: Fn(S, S) -> S>(zero: S, plus: A) -> bool {
    forall|x: S, z: S| #[trigger] call_ensures(plus, (zero, x), z) ==> z == x
}

/// The total of a word that was kept is the total that the model comes to.
proof fn lemma_totals_agree<S, A: Fn(S, S) -> S>(
    table: Seq<S>,
    w: Seq<u8>,
    zero: S,
    plus: A,
    s: Seq<S>,
    sums: Seq<S>,
)
    requires
        is_function(plus),
        is_neutral(zero, plus),
        is_partial_score(table, w, plus, s),
        s.len() == w.len() + 1,
        markov::is_running_sum(table, w, zero, plus, sums),
        sums.len() == w.len() + 2,
    ensures
        s.last() == sums.last(),
{
    lemma_score_from_zero(table, w, zero, plus, sums);
    lemma_partial_scores_agree(table, w, plus, s, sums.drop_first(), w.len() as int);
}

/// The score of a word that was kept is the score that the model gives its text.
proof fn lemma_kept_score<S, A: Fn(S, S) -> S, K: Fn(S) -> bool, D: Fn(S, usize) -> S>(
    table: Seq<S>,
    w: Seq<u8>,
    zero: S,
    plus: A,
    keep: K,
    average: D,
    found: S,
    scored: S,
)
    requires
        forall|i: int| 0 <= i < w.len() ==> #[trigger] w[i] < LETTERS,
        is_function(plus),
        is_division(average),
        is_neutral(zero, plus),
        is_kept(table, w, plus, keep, average, found),
        markov::is_score(table, text_of(w), zero, plus, average, scored),
    ensures
        found == scored,
{
    names_spell_their_words(w);
    assert(bytes_of(w).len() == w.len());
    let s = choose|s: Seq<S>|
        {
            &&& #[trigger] is_partial_score(table, w, plus, s)
            &&& s.len() == w.len() + 1
            &&& forall|i: int| 1 <= i < s.len() ==> call_ensures(keep, (#[trigger] s[i],), true)
            &&& call_ensures(average, (s.last(), (w.len() + 1) as usize), found)
        };
    let sums = choose|sums: Seq<S>|
        {
            &&& #[trigger] markov::is_running_sum(table, w, zero, plus, sums)
            &&& sums.len() == w.len() + 2
            &&& call_ensures(average, (sums.last(), (w.len() + 1) as usize), scored)
        };
    lemma_totals_agree(table, w, zero, plus, s, sums);
}

/// The scan and the model agree: the score of every candidate, which was
/// accumulated on the way down, is the one that the model gives its name. The
/// arithmetic must have one result for given arguments, and a neutral zero.
pub proof fn scan_scores_are_model_scores<
    S,
    A: Fn(S, S) -> S,
    K: Fn(S) -> bool,
    D: Fn(S, usize) -> S,
>(
    table: Seq<S>,
    o: ScanOpts,
    zero: S,
    plus: A,
    keep: K,
    average: D,
    out: Seq<Candidate<S>>,
    i: int,
    scored: S,
)
    requires
        is_function(plus),
        is_division(average),
        is_neutral(zero, plus),
        lists(table, o, plus, keep, average, every_word(), out),
        0 <= i < out.len(),
        markov::is_score(table, out[i].name@, zero, plus, average, scored),
    ensures
        out[i].score == scored,
{
    let words = choose|words: Seq<Seq<u8>>| #[trigger]
        is_listing(table, o, plus, keep, average, every_word(), words, out);
    assert(is_candidate(table, o, plus, keep, average, every_word(), words[i], out[i]));
    lemma_kept_score(table, words[i], zero, plus, keep, average, out[i].score, scored);
}

// What the scan comes to

/// The bytes of a name of lower-case letters.
proof fn lemma_name_bytes(name: Seq<char>)
    requires
        forall|x: int| 0 <= x < name.len() ==> 'a' <= #[trigger] name[x] && name[x] <= 'z',
    ensures
        ({
            let w = markov::symbols_of(encode_utf8(name));
            &&& is_word(w, name.len())
            &&& text_of(w) == name
            &&& bytes_of(w) == encode_utf8(name)
        }),
{
    assert(names::all_lowercase(name)) by {
        assert forall|i: int| 0 <= i < name.len() implies names::is_lowercase(
            #[trigger] name[i],
        ) by {}
    }
    names::lowercase_is_in_alphabet(name);
    let bytes = encode_utf8(name);
    let w = markov::symbols_of(bytes);
    assert forall|i: int| 0 <= i < w.len() implies #[trigger] w[i] < LETTERS && text_of(w)[i]
        == name[i] && bytes_of(w)[i] == bytes[i] by {
        assert('a' <= name[i] && name[i] <= 'z');
        assert(bytes[i] == name[i] as u8);
        assert(w[i] == (bytes[i] - LETTER_A) as u8);
    }
    assert(text_of(w) =~= name);
    assert(bytes_of(w) =~= bytes);
}

/// A name that is listed has the length asked for, only letters from a to z, and
/// passes both filters on its structure.
pub proof fn listed_names_are_well_formed<
    S,
    A: Fn(S, S) -> S,
    K: Fn(S) -> bool,
    D: Fn(S, usize) -> S,
>(
    table: Seq<S>,
    o: ScanOpts,
    plus: A,
    keep: K,
    average: D,
    out: Seq<Candidate<S>>,
    i: int,
)
    requires
        lists(table, o, plus, keep, average, every_word(), out),
        0 <= i < out.len(),
    ensures
        out[i].name@.len() == o.len,
        forall|x: int|
            0 <= x < out[i].name@.len() ==> 'a' <= #[trigger] out[i].name@[x] && out[i].name@[x]
                <= 'z',
        syllable::is_plausible(encode_utf8(out[i].name@)),
        syllable::in_syllable_range(
            encode_utf8(out[i].name@),
            o.min_syl as nat,
            o.max_syl as nat,
        ),
{
    let words = choose|words: Seq<Seq<u8>>| #[trigger]
        is_listing(table, o, plus, keep, average, every_word(), words, out);
    assert(is_candidate(table, o, plus, keep, average, every_word(), words[i], out[i]));
    let w = words[i];
    names_spell_their_words(w);
    assert forall|x: int| 0 <= x < out[i].name@.len() implies 'a' <= #[trigger] out[i].name@[x]
        && out[i].name@[x] <= 'z' by {
        assert(names::is_lowercase(text_of(w)[x]));
    }
}

/// The names are listed in the order of the dictionary, none of them twice.
pub proof fn names_are_listed_in_order<
    S,
    A: Fn(S, S) -> S,
    K: Fn(S) -> bool,
    D: Fn(S, usize) -> S,
>(
    table: Seq<S>,
    o: ScanOpts,
    plus: A,
    keep: K,
    average: D,
    out: Seq<Candidate<S>>,
    i: int,
    j: int,
)
    requires
        lists(table, o, plus, keep, average, every_word(), out),
        0 <= i < j < out.len(),
    ensures
        exists|d: int|
            0 <= d < o.len && #[trigger] out[i].name@[d] < out[j].name@[d] && out[i].name@.take(d)
                == out[j].name@.take(d),
{
    let words = choose|words: Seq<Seq<u8>>| #[trigger]
        is_listing(table, o, plus, keep, average, every_word(), words, out);
    assert(is_candidate(table, o, plus, keep, average, every_word(), words[i], out[i]));
    assert(is_candidate(table, o, plus, keep, average, every_word(), words[j], out[j]));
    let x = words[i];
    let y = words[j];
    assert(precedes(x, y));
    let d = choose|d: int|
        0 <= d < x.len() && d < y.len() && #[trigger] x[d] < y[d] && x.take(d) == y.take(d);
    assert(x[d] < LETTERS && y[d] < LETTERS);
    assert(text_of(x)[d] < text_of(y)[d]);
    assert(text_of(x).take(d) =~= text_of(y).take(d)) by {
        assert forall|k: int| 0 <= k < d implies text_of(x)[k] == text_of(y)[k] by {
            assert(x.take(d)[k] == y.take(d)[k]);
        }
    }
}

/// Every name of the right length that passes both filters on its structure is
/// listed, unless its score was too low on the way.
pub proof fn every_other_name_was_pruned<
    S,
    A: Fn(S, S) -> S,
    K: Fn(S) -> bool,
    D: Fn(S, usize) -> S,
>(
    table: Seq<S>,
    o: ScanOpts,
    plus: A,
    keep: K,
    average: D,
    out: Seq<Candidate<S>>,
    name: Seq<char>,
)
    requires
        lists(table, o, plus, keep, average, every_word(), out),
        name.len() == o.len,
        forall|x: int| 0 <= x < name.len() ==> 'a' <= #[trigger] name[x] && name[x] <= 'z',
        syllable::is_plausible(encode_utf8(name)),
        syllable::in_syllable_range(encode_utf8(name), o.min_syl as nat, o.max_syl as nat),
    ensures
        is_pruned(table, markov::symbols_of(encode_utf8(name)), plus, keep) || exists|i: int|
            0 <= i < out.len() && (#[trigger] out[i]).name@ == name,
{
    let words = choose|words: Seq<Seq<u8>>| #[trigger]
        is_listing(table, o, plus, keep, average, every_word(), words, out);
    lemma_name_bytes(name);
    let w = markov::symbols_of(encode_utf8(name));
    assert(is_well_formed(w, o));
    assert(every_word()(w));
    if words.contains(w) {
        let i = choose|i: int| 0 <= i < words.len() && words[i] == w;
        assert(is_candidate(table, o, plus, keep, average, every_word(), words[i], out[i]));
        assert(out[i].name@ == name);
    }
}

/// `sums` adds up what the table has for the first transitions of a name, one by
/// one.
pub open spec fn adds_up<S, A: Fn(S, S) -> S>(
    table: Seq<S>,
    name: Seq<char>,
    plus: A,
    sums: Seq<S>,
) -> bool {
    let ts = markov::word_transitions(encode_utf8(name));
    &&& 1 <= sums.len() <= name.len() + 1
    &&& sums[0] == table[markov::place(ts[0])]
    &&& forall|i: int|
        1 <= i < sums.len() ==> call_ensures(
            plus,
            (sums[i - 1], table[markov::place(ts[i])]),
            #[trigger] sums[i],
        )
}

proof fn lemma_adds_up<S, A: Fn(S, S) -> S>(
    table: Seq<S>,
    name: Seq<char>,
    plus: A,
    sums: Seq<S>,
)
    requires
        forall|x: int| 0 <= x < name.len() ==> 'a' <= #[trigger] name[x] && name[x] <= 'z',
        is_partial_score(table, markov::symbols_of(encode_utf8(name)), plus, sums),
    ensures
        adds_up(table, name, plus, sums),
{
    lemma_name_bytes(name);
    let w = markov::symbols_of(encode_utf8(name));
    let ts = markov::word_transitions(encode_utf8(name));
    assert(names::all_lowercase(name)) by {
        assert forall|i: int| 0 <= i < name.len() implies names::is_lowercase(
            #[trigger] name[i],
        ) by {}
    }
    names::lowercase_is_in_alphabet(name);
    assert forall|i: int| 0 <= i < sums.len() implies markov::lookup(w, i) == markov::place(
        #[trigger] ts[i],
    ) by {
        markov::lookups_are_transitions(encode_utf8(name), i);
    }
    assert(markov::lookup(w, 0) == markov::place(ts[0]));
    assert forall|i: int| 1 <= i < sums.len() implies call_ensures(
        plus,
        (sums[i - 1], table[markov::place(ts[i])]),
        #[trigger] sums[i],
    ) by {
        assert(adds_at(table, w, plus, sums, i));
        assert(markov::lookup(w, i) == markov::place(ts[i]));
    }
}

/// A name was pruned only when the sum over its first transitions, two of them or
/// more, was turned down.
pub proof fn names_are_pruned_for_a_low_sum<S, A: Fn(S, S) -> S, K: Fn(S) -> bool>(
    table: Seq<S>,
    name: Seq<char>,
    plus: A,
    keep: K,
)
    requires
        forall|x: int| 0 <= x < name.len() ==> 'a' <= #[trigger] name[x] && name[x] <= 'z',
        is_pruned(table, markov::symbols_of(encode_utf8(name)), plus, keep),
    ensures
        exists|sums: Seq<S>| #[trigger]
            adds_up(table, name, plus, sums) && sums.len() >= 2 && call_ensures(
                keep,
                (sums.last(),),
                false,
            ),
{
    let w = markov::symbols_of(encode_utf8(name));
    let sums = choose|sums: Seq<S>|
        {
            &&& #[trigger] is_partial_score(table, w, plus, sums)
            &&& sums.len() >= 2
            &&& call_ensures(keep, (sums.last(),), false)
        };
    lemma_adds_up(table, name, plus, sums);
}

/// A name is listed with the average of the sum over all its transitions, the final
/// boundary included, and that sum, like all those of two transitions or more on the
/// way to it, was high enough.
pub proof fn listed_names_have_a_high_sum<
    S,
    A: Fn(S, S) -> S,
    K: Fn(S) -> bool,
    D: Fn(S, usize) -> S,
>(
    table: Seq<S>,
    o: ScanOpts,
    plus: A,
    keep: K,
    average: D,
    out: Seq<Candidate<S>>,
    i: int,
)
    requires
        lists(table, o, plus, keep, average, every_word(), out),
        0 <= i < out.len(),
    ensures
        exists|sums: Seq<S>|
            {
                &&& #[trigger] adds_up(table, out[i].name@, plus, sums)
                &&& sums.len() == o.len + 1
                &&& forall|x: int|
                    1 <= x < sums.len() ==> call_ensures(keep, (#[trigger] sums[x],), true)
                &&& call_ensures(average, (sums.last(), (o.len + 1) as usize), out[i].score)
            },
{
    let words = choose|words: Seq<Seq<u8>>| #[trigger]
        is_listing(table, o, plus, keep, average, every_word(), words, out);
    assert(is_candidate(table, o, plus, keep, average, every_word(), words[i], out[i]));
    let w = words[i];
    listed_names_are_well_formed(table, o, plus, keep, average, out, i);
    names_spell_their_words(w);
    let sums = choose|sums: Seq<S>|
        {
            &&& #[trigger] is_partial_score(table, w, plus, sums)
            &&& sums.len() == w.len() + 1
            &&& forall|i: int|
                1 <= i < sums.len() ==> call_ensures(keep, (#[trigger] sums[i],), true)
            &&& call_ensures(average, (sums.last(), (w.len() + 1) as usize), out[i].score)
        };
    lemma_adds_up(table, out[i].name@, plus, sums);
}

} // verus!
