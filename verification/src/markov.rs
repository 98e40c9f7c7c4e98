//! Order-3 character n-gram model with Witten-Bell smoothing.
//!
//! The seed corpus is small (a few hundred words), so many order-3 contexts are
//! never observed. Witten-Bell then backs off to lower orders, weighted by
//! contextual diversity: a context seen with many different continuations is
//! trusted more than one seen only once. There are no hyperparameters to tune.
//!
//! The model is generic over the number type of its probabilities: the caller
//! supplies the few arithmetic operations on it, and everything else (which
//! transitions are counted, which context backs off to which, what is looked up
//! for a word) is decided here.

use vstd::prelude::*;
use vstd::utf8::*;

verus! {

/// 26 letters plus one boundary symbol (start and end of word).
pub const ALPHA: usize = 27;

/// The boundary symbol.
pub const BOUND: u8 = 26;

/// Number of order-1 contexts.
pub const N1: usize = 27;

/// Number of order-2 contexts.
pub const N2: usize = 729;

/// Number of order-3 contexts.
pub const N3: usize = 19683;

/// Code of the letter `a`.
pub const LETTER_A: u8 = 97;

/// Index of the context made of three consecutive symbols.
pub open spec fn context_of(a: u8, b: u8, c: u8) -> nat {
    ((a * ALPHA + b) * ALPHA + c) as nat
}

/// Context after one more symbol.
pub open spec fn shifted(ctx: nat, next: u8) -> nat {
    (ctx % (N2 as nat)) * (ALPHA as nat) + next as nat
}

/// Context reached from the start of a word after reading `symbols`.
pub open spec fn context_after(symbols: Seq<u8>) -> nat
    decreases symbols.len(),
{
    if symbols.len() == 0 {
        context_of(BOUND, BOUND, BOUND)
    } else {
        shifted(context_after(symbols.drop_last()), symbols.last())
    }
}

/// Symbols of the bytes of a word.
pub open spec fn symbols_of(bytes: Seq<u8>) -> Seq<u8> {
    bytes.map_values(|b: u8| (b - LETTER_A) as u8)
}

/// A word between its boundaries: three in front give the first real character
/// a complete order-3 context, one behind marks the end.
pub open spec fn padded(symbols: Seq<u8>) -> Seq<u8> {
    seq![BOUND, BOUND, BOUND] + symbols + seq![BOUND]
}

/// Index, in a table of order `k`, of the symbol at `i` behind its `k`
/// predecessors.
pub open spec fn gram(s: Seq<u8>, i: int, k: nat) -> int
    decreases k,
{
    if k == 0 {
        s[i] as int
    } else {
        s[i - k] * width(k) + gram(s, i, (k - 1) as nat)
    }
}

/// Number of contexts of order `k`.
pub open spec fn width(k: nat) -> int
    decreases k,
{
    if k == 0 {
        1
    } else {
        ALPHA * width((k - 1) as nat)
    }
}

/// The transitions of one word, in order, each by its index of order `k`.
pub open spec fn word_grams(symbols: Seq<u8>, k: nat) -> Seq<int> {
    Seq::new(symbols.len() + 1, |j: int| gram(padded(symbols), j + 3, k))
}

/// The transitions of a whole corpus, word after word.
pub open spec fn corpus_grams(words: Seq<String>, k: nat) -> Seq<int>
    decreases words.len(),
{
    if words.len() == 0 {
        Seq::empty()
    } else {
        corpus_grams(words.drop_last(), k) + word_grams(
            symbols_of(encode_utf8(words.last()@)),
            k,
        )
    }
}

/// Number of transitions in a corpus: one for every byte and one for every end.
pub open spec fn transition_count(words: Seq<String>) -> nat
    decreases words.len(),
{
    if words.len() == 0 {
        0
    } else {
        transition_count(words.drop_last()) + encode_utf8(words.last()@).len() + 1
    }
}

/// Every byte of the word stands for a symbol of the alphabet.
pub open spec fn in_alphabet(bytes: Seq<u8>) -> bool {
    forall|i: int| 0 <= i < bytes.len() ==> LETTER_A <= #[trigger] bytes[i] <= LETTER_A + BOUND
}

/// How often each transition occurs in a corpus, for each order.
pub struct Counts {
    pub c0: Vec<u32>,
    pub c1: Vec<u32>,
    pub c2: Vec<u32>,
    pub c3: Vec<u32>,
}

/// `counts` holds, for every index, how often `grams` goes through it.
pub open spec fn tallies(counts: Seq<u32>, grams: Seq<int>) -> bool {
    forall|x: int|
        0 <= x < counts.len() ==> #[trigger] counts[x] == grams.to_multiset().count(x)
}

impl Counts {
    /// The table sizes.
    pub open spec fn wf(&self) -> bool {
        &&& self.c0@.len() == ALPHA
        &&& self.c1@.len() == N1 * ALPHA
        &&& self.c2@.len() == N2 * ALPHA
        &&& self.c3@.len() == N3 * ALPHA
    }

    /// The counts of a given corpus.
    pub open spec fn counts_of(&self, words: Seq<String>) -> bool {
        &&& tallies(self.c0@, corpus_grams(words, 0))
        &&& tallies(self.c1@, corpus_grams(words, 1))
        &&& tallies(self.c2@, corpus_grams(words, 2))
        &&& tallies(self.c3@, corpus_grams(words, 3))
    }
}

proof fn lemma_corpus_grams_len(words: Seq<String>, k: nat)
    ensures
        corpus_grams(words, k).len() == transition_count(words),
    decreases words.len(),
{
    if words.len() > 0 {
        lemma_corpus_grams_len(words.drop_last(), k);
    }
}

proof fn lemma_transition_count_take(words: Seq<String>, n: int)
    requires
        0 <= n <= words.len(),
    ensures
        transition_count(words.take(n)) <= transition_count(words),
    decreases words.len(),
{
    if n < words.len() {
        assert(words.drop_last().take(n) =~= words.take(n));
        lemma_transition_count_take(words.drop_last(), n);
    } else {
        assert(words.take(n) =~= words);
    }
}

proof fn lemma_count_le_len(s: Seq<int>, x: int)
    ensures
        s.to_multiset().count(x) <= s.len(),
    decreases s.len(),
{
    s.to_multiset_ensures();
    if s.len() == 0 {
        assert(s.to_multiset().len() == 0);
    } else {
        let t = s.drop_last();
        t.to_multiset_ensures();
        assert(s =~= t.push(s.last()));
        lemma_count_le_len(t, x);
    }
}

/// The explicit index of a transition, for symbols of the alphabet.
proof fn lemma_gram_index(s: Seq<u8>, i: int)
    requires
        3 <= i < s.len(),
        s[i] <= BOUND,
        s[i - 1] <= BOUND,
        s[i - 2] <= BOUND,
        s[i - 3] <= BOUND,
    ensures
        gram(s, i, 0) == s[i],
        gram(s, i, 1) == s[i - 1] * ALPHA + s[i],
        gram(s, i, 2) == (s[i - 2] * ALPHA + s[i - 1]) * ALPHA + s[i],
        gram(s, i, 3) == ((s[i - 3] * ALPHA + s[i - 2]) * ALPHA + s[i - 1]) * ALPHA + s[i],
        0 <= gram(s, i, 0) < ALPHA,
        0 <= gram(s, i, 1) < N1 * ALPHA,
        0 <= gram(s, i, 2) < N2 * ALPHA,
        0 <= gram(s, i, 3) < N3 * ALPHA,
{
    reveal_with_fuel(gram, 5);
    reveal_with_fuel(width, 5);
    assert(width(0) == 1);
    assert(width(1) == 27);
    assert(width(2) == 729);
    assert(width(3) == 19683);
}

/// One more transition counted in one table.
fn bump(counts: &mut Vec<u32>, x: usize, Ghost(grams): Ghost<Seq<int>>)
    requires
        x < old(counts)@.len(),
        tallies(old(counts)@, grams),
        grams.len() < u32::MAX,
    ensures
        final(counts)@.len() == old(counts)@.len(),
        tallies(final(counts)@, grams.push(x as int)),
{
    proof {
        lemma_count_le_len(grams, x as int);
        grams.to_multiset_ensures();
    }
    let c: u32 = counts[x];
    counts.set(x, c + 1);
}

impl Counts {
    /// Counts every transition of every word.
    pub fn of(words: &[String]) -> (k: Counts)
        requires
            forall|i: int| 0 <= i < words@.len() ==> in_alphabet(encode_utf8(#[trigger] words@[i]@)),
            transition_count(words@) <= u32::MAX,
        ensures
            k.wf(),
            k.counts_of(words@),
    {
        let mut c0: Vec<u32> = vec![0; ALPHA];
        let mut c1: Vec<u32> = vec![0; N1 * ALPHA];
        let mut c2: Vec<u32> = vec![0; N2 * ALPHA];
        let mut c3: Vec<u32> = vec![0; N3 * ALPHA];
        proof {
            Seq::<int>::empty().to_multiset_ensures();
            assert(words@.take(0) =~= Seq::<String>::empty());
        }
        for n in 0..words.len()
            invariant
                forall|i: int|
                    0 <= i < words@.len() ==> in_alphabet(encode_utf8(#[trigger] words@[i]@)),
                transition_count(words@) <= u32::MAX,
                c0@.len() == ALPHA,
                c1@.len() == N1 * ALPHA,
                c2@.len() == N2 * ALPHA,
                c3@.len() == N3 * ALPHA,
                tallies(c0@, corpus_grams(words@.take(n as int), 0)),
                tallies(c1@, corpus_grams(words@.take(n as int), 1)),
                tallies(c2@, corpus_grams(words@.take(n as int), 2)),
                tallies(c3@, corpus_grams(words@.take(n as int), 3)),
        {
            let bytes = words[n].as_str().as_bytes();
            let ghost symbols = symbols_of(bytes@);
            let ghost before = words@.take(n as int);
            proof {
                assert(words@.take(n + 1).drop_last() =~= before);
                assert(in_alphabet(encode_utf8(words@[n as int]@)));
                lemma_transition_count_take(words@, n + 1);
            }
            let syms = pad(bytes);
            let ghost g0 = corpus_grams(before, 0);
            let ghost g1 = corpus_grams(before, 1);
            let ghost g2 = corpus_grams(before, 2);
            let ghost g3 = corpus_grams(before, 3);
            proof {
                lemma_corpus_grams_len(before, 0);
                lemma_corpus_grams_len(before, 1);
                lemma_corpus_grams_len(before, 2);
                lemma_corpus_grams_len(before, 3);
                assert(g0 + word_grams(symbols, 0).take(0) =~= g0);
                assert(g1 + word_grams(symbols, 1).take(0) =~= g1);
                assert(g2 + word_grams(symbols, 2).take(0) =~= g2);
                assert(g3 + word_grams(symbols, 3).take(0) =~= g3);
            }
            for i in 3..syms.len()
                invariant
                    c0@.len() == ALPHA,
                    c1@.len() == N1 * ALPHA,
                    c2@.len() == N2 * ALPHA,
                    c3@.len() == N3 * ALPHA,
                    syms@ == padded(symbols),
                    forall|j: int| 0 <= j < syms@.len() ==> #[trigger] syms@[j] <= BOUND,
                    g0.len() == transition_count(before),
                    g1.len() == transition_count(before),
                    g2.len() == transition_count(before),
                    g3.len() == transition_count(before),
                    transition_count(before) + symbols.len() + 1 <= u32::MAX,
                    tallies(c0@, g0 + word_grams(symbols, 0).take(i - 3)),
                    tallies(c1@, g1 + word_grams(symbols, 1).take(i - 3)),
                    tallies(c2@, g2 + word_grams(symbols, 2).take(i - 3)),
                    tallies(c3@, g3 + word_grams(symbols, 3).take(i - 3)),
            {
                proof {
                    lemma_gram_index(syms@, i as int);
                    assert(g0 + word_grams(symbols, 0).take(i - 2) =~= (g0 + word_grams(
                        symbols,
                        0,
                    ).take(i - 3)).push(gram(syms@, i as int, 0)));
                    assert(g1 + word_grams(symbols, 1).take(i - 2) =~= (g1 + word_grams(
                        symbols,
                        1,
                    ).take(i - 3)).push(gram(syms@, i as int, 1)));
                    assert(g2 + word_grams(symbols, 2).take(i - 2) =~= (g2 + word_grams(
                        symbols,
                        2,
                    ).take(i - 3)).push(gram(syms@, i as int, 2)));
                    assert(g3 + word_grams(symbols, 3).take(i - 2) =~= (g3 + word_grams(
                        symbols,
                        3,
                    ).take(i - 3)).push(gram(syms@, i as int, 3)));
                }
                let a = syms[i - 3] as usize;
                let b = syms[i - 2] as usize;
                let c = syms[i - 1] as usize;
                let next = syms[i] as usize;
                bump(
                    &mut c3,
                    ((a * ALPHA + b) * ALPHA + c) * ALPHA + next,
                    Ghost(g3 + word_grams(symbols, 3).take(i - 3)),
                );
                bump(
                    &mut c2,
                    (b * ALPHA + c) * ALPHA + next,
                    Ghost(g2 + word_grams(symbols, 2).take(i - 3)),
                );
                bump(&mut c1, c * ALPHA + next, Ghost(g1 + word_grams(symbols, 1).take(i - 3)));
                bump(&mut c0, next, Ghost(g0 + word_grams(symbols, 0).take(i - 3)));
            }
            proof {
                assert(word_grams(symbols, 0).take((symbols.len() + 1) as int) =~= word_grams(symbols, 0));
                assert(word_grams(symbols, 1).take((symbols.len() + 1) as int) =~= word_grams(symbols, 1));
                assert(word_grams(symbols, 2).take((symbols.len() + 1) as int) =~= word_grams(symbols, 2));
                assert(word_grams(symbols, 3).take((symbols.len() + 1) as int) =~= word_grams(symbols, 3));
            }
        }
        proof {
            assert(words@.take(words@.len() as int) =~= words@);
        }
        Counts { c0, c1, c2, c3 }
    }
}

/// Puts the boundaries around a word.
fn pad(bytes: &[u8]) -> (syms: Vec<u8>)
    requires
        in_alphabet(bytes@),
    ensures
        syms@ == padded(symbols_of(bytes@)),
        forall|j: int| 0 <= j < syms@.len() ==> #[trigger] syms@[j] <= BOUND,
{
    let mut syms: Vec<u8> = vec![BOUND, BOUND, BOUND];
    for i in 0..bytes.len()
        invariant
            in_alphabet(bytes@),
            syms@ =~= seq![BOUND, BOUND, BOUND] + symbols_of(bytes@).take(i as int),
            forall|j: int| 0 <= j < syms@.len() ==> #[trigger] syms@[j] <= BOUND,
    {
        syms.push(bytes[i] - LETTER_A);
    }
    syms.push(BOUND);
    assert(symbols_of(bytes@).take(bytes@.len() as int) =~= symbols_of(bytes@));
    syms
}

/// Row `ctx` of a table: one cell for every symbol.
pub open spec fn row_of<T>(table: Seq<T>, ctx: int) -> Seq<T> {
    table.subrange(ctx * ALPHA, (ctx + 1) * ALPHA)
}

/// Observed mass of a context.
pub open spec fn mass(row: Seq<u32>) -> nat
    decreases row.len(),
{
    if row.len() == 0 {
        0
    } else {
        mass(row.drop_last()) + row.last() as nat
    }
}

/// Number of distinct continuations of a context.
pub open spec fn diversity(row: Seq<u32>) -> nat
    decreases row.len(),
{
    if row.len() == 0 {
        0
    } else {
        diversity(row.drop_last()) + if row.last() > 0 {
            1nat
        } else {
            0nat
        }
    }
}

/// One smoothed cell. An unseen context delegates entirely to the lower order;
/// a seen one mixes its count with the lower probability.
pub open spec fn is_smoothed_cell<S, M: Fn(u32, u64, u32, S) -> S>(
    counts: Seq<u32>,
    lower: Seq<S>,
    n_lower: int,
    mix: M,
    x: int,
    cell: S,
) -> bool {
    let row = row_of(counts, x / (ALPHA as int));
    let backed = lower[((x / (ALPHA as int)) % n_lower) * ALPHA + x % (ALPHA as int)];
    if mass(row) == 0 {
        cell == backed
    } else {
        call_ensures(mix, (counts[x], mass(row) as u64, diversity(row) as u32, backed), cell)
    }
}

/// One smoothed layer over a lower one of `n_lower` contexts.
pub open spec fn is_smoothed_level<S, M: Fn(u32, u64, u32, S) -> S>(
    counts: Seq<u32>,
    lower: Seq<S>,
    n_lower: int,
    mix: M,
    level: Seq<S>,
) -> bool {
    &&& level.len() == counts.len()
    &&& forall|x: int|
        0 <= x < level.len() ==> is_smoothed_cell(
            counts,
            lower,
            n_lower,
            mix,
            x,
            #[trigger] level[x],
        )
}

/// Order 0: every symbol by its count and the total.
pub open spec fn is_base_level<S, B: Fn(u32, u64) -> S>(
    counts: Seq<u32>,
    base: B,
    level: Seq<S>,
) -> bool {
    &&& level.len() == counts.len()
    &&& forall|x: int|
        0 <= x < level.len() ==> call_ensures(
            base,
            (counts[x], mass(counts) as u64),
            #[trigger] level[x],
        )
}

/// The table that `build_table` makes out of the three smoothed layers over
/// the base, with `finish` applied to every cell.
pub open spec fn is_table<
    S,
    B: Fn(u32, u64) -> S,
    M: Fn(u32, u64, u32, S) -> S,
    L: Fn(S) -> S,
>(k: Counts, base: B, mix: M, finish: L, table: Seq<S>) -> bool {
    exists|p0: Seq<S>, p1: Seq<S>, p2: Seq<S>, p3: Seq<S>|
        {
            &&& #[trigger] is_base_level(k.c0@, base, p0)
            &&& #[trigger] is_smoothed_level(k.c1@, p0, 1, mix, p1)
            &&& #[trigger] is_smoothed_level(k.c2@, p1, N1 as int, mix, p2)
            &&& #[trigger] is_smoothed_level(k.c3@, p2, N2 as int, mix, p3)
            &&& table.len() == p3.len()
            &&& forall|x: int|
                0 <= x < table.len() ==> call_ensures(finish, (p3[x],), #[trigger] table[x])
        }
}

/// The table is that of the counts of a corpus.
pub open spec fn is_trained<
    S,
    B: Fn(u32, u64) -> S,
    M: Fn(u32, u64, u32, S) -> S,
    L: Fn(S) -> S,
>(words: Seq<String>, base: B, mix: M, finish: L, table: Seq<S>) -> bool {
    exists|k: Counts|
        k.wf() && #[trigger] k.counts_of(words) && is_table(k, base, mix, finish, table)
}

/// Mass and diversity of the row of `counts` from `start` to `end`.
fn row_stats(counts: &[u32], start: usize, end: usize) -> (r: (u64, u32))
    requires
        start <= end <= counts@.len(),
        end - start <= ALPHA,
    ensures
        r.0 == mass(counts@.subrange(start as int, end as int)),
        r.1 == diversity(counts@.subrange(start as int, end as int)),
{
    let mut n: u64 = 0;
    let mut t: u32 = 0;
    for i in start..end
        invariant
            end <= counts@.len(),
            end - start <= ALPHA,
            n == mass(counts@.subrange(start as int, i as int)),
            n <= (i - start) * u32::MAX,
            t == diversity(counts@.subrange(start as int, i as int)),
            t <= i - start,
    {
        assert(counts@.subrange(start as int, i + 1).drop_last() =~= counts@.subrange(
            start as int,
            i as int,
        ));
        n = n + counts[i] as u64;
        if counts[i] > 0 {
            t = t + 1;
        }
    }
    (n, t)
}

/// One Witten-Bell layer: P(x|ctx) = (c + T·P_lower(x)) / (N + T), where N
/// is the observed mass of the context and T its number of distinct
/// continuations. `mix` receives c, N, T and P_lower(x).
fn backoff_level<S: Copy, M: Fn(u32, u64, u32, S) -> S>(
    counts: &[u32],
    lower: &[S],
    n_ctx: usize,
    n_lower: usize,
    mix: &M,
) -> (out: Vec<S>)
    requires
        0 < n_lower <= N2,
        n_ctx <= N3,
        counts@.len() == n_ctx * ALPHA,
        lower@.len() == n_lower * ALPHA,
        forall|c: u32, n: u64, t: u32, p: S| call_requires(*mix, (c, n, t, p)),
    ensures
        is_smoothed_level(counts@, lower@, n_lower as int, *mix, out@),
{
    let mut out: Vec<S> = Vec::new();
    for ctx in 0..n_ctx
        invariant
            0 < n_lower <= N2,
            n_ctx <= N3,
            counts@.len() == n_ctx * ALPHA,
            lower@.len() == n_lower * ALPHA,
            forall|c: u32, n: u64, t: u32, p: S| call_requires(*mix, (c, n, t, p)),
            out@.len() == ctx * ALPHA,
            forall|x: int|
                0 <= x < out@.len() ==> is_smoothed_cell(
                    counts@,
                    lower@,
                    n_lower as int,
                    *mix,
                    x,
                    #[trigger] out@[x],
                ),
    {
        assert((ctx + 1) * ALPHA <= n_ctx * ALPHA) by (nonlinear_arith)
            requires
                ctx < n_ctx,
        ;
        let start = ctx * ALPHA;
        let (n, t) = row_stats(counts, start, start + ALPHA);
        let back = ctx % n_lower;
        assert((back + 1) * ALPHA <= n_lower * ALPHA) by (nonlinear_arith)
            requires
                back < n_lower,
        ;
        for x in 0..ALPHA
            invariant
                0 < n_lower <= N2,
                n_ctx <= N3,
                ctx < n_ctx,
                back == ctx as int % n_lower as int,
                back < n_lower,
                (back + 1) * ALPHA <= lower@.len(),
                (ctx + 1) * ALPHA <= counts@.len(),
                start == ctx * ALPHA,
                n == mass(row_of(counts@, ctx as int)),
                t == diversity(row_of(counts@, ctx as int)),
                forall|c: u32, n: u64, t: u32, p: S| call_requires(*mix, (c, n, t, p)),
                out@.len() == ctx * ALPHA + x,
                forall|y: int|
                    0 <= y < out@.len() ==> is_smoothed_cell(
                        counts@,
                        lower@,
                        n_lower as int,
                        *mix,
                        y,
                        #[trigger] out@[y],
                    ),
        {
            let p_lower: S = lower[back * ALPHA + x];
            assert((start + x) as int / (ALPHA as int) == ctx && (start + x) as int % (ALPHA as int)
                == x);
            if n == 0 {
                // Unseen context: delegate entirely to the lower order.
                out.push(p_lower);
            } else {
                out.push((*mix)(counts[start + x], n, t, p_lower));
            }
        }
    }
    out
}

/// Flattens counts into a dense table of smoothed log probabilities. `base`
/// receives the count of a symbol and the total of all counts (order 0 uses
/// add-one smoothing, so no symbol has zero probability), `mix` is the
/// Witten-Bell formula, and `finish` the logarithm.
fn build_table<
    S: Copy,
    B: Fn(u32, u64) -> S,
    M: Fn(u32, u64, u32, S) -> S,
    L: Fn(S) -> S,
>(k: &Counts, base: &B, mix: &M, finish: &L) -> (table: Vec<S>)
    requires
        k.wf(),
        forall|c: u32, n: u64| call_requires(*base, (c, n)),
        forall|c: u32, n: u64, t: u32, p: S| call_requires(*mix, (c, n, t, p)),
        forall|p: S| call_requires(*finish, (p,)),
    ensures
        table@.len() == N3 * ALPHA,
        is_table(*k, *base, *mix, *finish, table@),
{
    assert(k.c0@.subrange(0, ALPHA as int) =~= k.c0@);
    let (total, _t) = row_stats(k.c0.as_slice(), 0, ALPHA);
    let mut p0: Vec<S> = Vec::new();
    for x in 0..ALPHA
        invariant
            k.wf(),
            forall|c: u32, n: u64| call_requires(*base, (c, n)),
            total == mass(k.c0@),
            p0@.len() == x,
            forall|y: int|
                0 <= y < x ==> call_ensures(
                    *base,
                    (k.c0@[y], mass(k.c0@) as u64),
                    #[trigger] p0@[y],
                ),
    {
        p0.push((*base)(k.c0[x], total));
    }
    // p0 is indexed by symbol alone, not by context: it has a single row.
    let p1 = backoff_level(k.c1.as_slice(), p0.as_slice(), N1, 1, mix);
    let p2 = backoff_level(k.c2.as_slice(), p1.as_slice(), N2, N1, mix);
    let p3 = backoff_level(k.c3.as_slice(), p2.as_slice(), N3, N2, mix);
    let mut table: Vec<S> = Vec::new();
    for x in 0..p3.len()
        invariant
            forall|p: S| call_requires(*finish, (p,)),
            table@.len() == x,
            forall|y: int|
                0 <= y < x ==> call_ensures(*finish, (p3@[y],), #[trigger] table@[y]),
    {
        table.push((*finish)(p3[x]));
    }
    assert(is_base_level(k.c0@, *base, p0@));
    assert(is_smoothed_level(k.c1@, p0@, 1, *mix, p1@));
    assert(is_smoothed_level(k.c2@, p1@, N1 as int, *mix, p2@));
    assert(is_smoothed_level(k.c3@, p2@, N2 as int, *mix, p3@));
    table
}

/// A trained model.
pub struct Markov<S> {
    /// log P(next | 3 preceding symbols), indexed by `ctx * ALPHA + next`.
    logp: Vec<S>,
}

impl<S> Markov<S> {
    /// The table of log probabilities.
    pub closed spec fn table(&self) -> Seq<S> {
        self.logp@
    }

    /// Every context has a row.
    #[verifier::type_invariant]
    pub open spec fn wf(&self) -> bool {
        self.table().len() == N3 * ALPHA
    }

    /// Context index for three consecutive symbols.
    pub fn ctx(a: u8, b: u8, c: u8) -> (r: usize)
        ensures
            r == context_of(a, b, c),
    {
        (a as usize * ALPHA + b as usize) * ALPHA + c as usize
    }

    /// Shifts the context by one symbol.
    pub fn advance(ctx: usize, next: u8) -> (r: usize)
        ensures
            r == shifted(ctx as nat, next),
    {
        (ctx % (ALPHA * ALPHA)) * ALPHA + next as usize
    }
}

impl<S: Copy> Markov<S> {
    /// Trains a model on a corpus of words made of the letters of the alphabet.
    pub fn train<
        B: Fn(u32, u64) -> S,
        M: Fn(u32, u64, u32, S) -> S,
        L: Fn(S) -> S,
    >(words: &[String], base: B, mix: M, finish: L) -> (m: Markov<S>)
        requires
            forall|i: int| 0 <= i < words@.len() ==> in_alphabet(encode_utf8(#[trigger] words@[i]@)),
            transition_count(words@) <= u32::MAX,
            forall|c: u32, n: u64| call_requires(base, (c, n)),
            forall|c: u32, n: u64, t: u32, p: S| call_requires(mix, (c, n, t, p)),
            forall|p: S| call_requires(finish, (p,)),
        ensures
            m.wf(),
            is_trained(words@, base, mix, finish, m.table()),
    {
        let k = Counts::of(words);
        let logp = build_table(&k, &base, &mix, &finish);
        assert(k.counts_of(words@));
        Markov { logp }
    }

    /// The log probability of one transition.
    pub fn logp(&self, ctx: usize, next: u8) -> (r: S)
        requires
            ctx * ALPHA + next < self.table().len(),
        ensures
            r == self.table()[ctx * ALPHA + next],
    {
        assert(self.logp.len() == self.table().len());
        self.logp[ctx * ALPHA + next as usize]
    }

    /// Average log probability per transition, including the final boundary.
    /// Normalized so seven-letter names are not penalized against six-letter
    /// ones. `plus` adds a log probability to a sum that starts at `zero`, and
    /// `average` divides the final sum by the number of transitions.
    pub fn score<A: Fn(S, S) -> S, D: Fn(S, usize) -> S>(
        &self,
        word: &str,
        zero: S,
        plus: A,
        average: D,
    ) -> (r: S)
        requires
            forall|i: int|
                0 <= i < encode_utf8(word@).len() ==> #[trigger] encode_utf8(word@)[i] >= LETTER_A,
            forall|i: int|
                0 <= i <= encode_utf8(word@).len() ==> #[trigger] lookup(
                    symbols_of(encode_utf8(word@)),
                    i,
                ) < self.table().len(),
            encode_utf8(word@).len() < usize::MAX,
            forall|x: S, y: S| call_requires(plus, (x, y)),
            forall|x: S, n: usize| call_requires(average, (x, n)),
        ensures
            is_score(self.table(), word@, zero, plus, average, r),
    {
        let bytes = word.as_bytes();
        let ghost symbols = symbols_of(bytes@);
        let mut ctx = Markov::<S>::ctx(BOUND, BOUND, BOUND);
        let mut total: S = zero;
        let ghost mut sums: Seq<S> = seq![zero];
        for i in 0..bytes.len()
            invariant
                bytes@ == encode_utf8(word@),
                symbols == symbols_of(bytes@),
                forall|j: int| 0 <= j < bytes@.len() ==> #[trigger] bytes@[j] >= LETTER_A,
                forall|j: int|
                    0 <= j <= bytes@.len() ==> #[trigger] lookup(symbols, j) < self.table().len(),
                forall|x: S, y: S| call_requires(plus, (x, y)),
                ctx == context_after(symbols.take(i as int)),
                sums.len() == i + 1,
                sums.last() == total,
                is_running_sum(self.table(), symbols, zero, plus, sums),
        {
            let s: u8 = bytes[i] - LETTER_A;
            assert(lookup(symbols, i as int) == ctx * ALPHA + s);
            let ghost before = sums;
            total = plus(total, self.logp(ctx, s));
            proof {
                assert(symbols.take(i + 1).drop_last() =~= symbols.take(i as int));
                sums = sums.push(total);
                lemma_one_more(self.table(), symbols, zero, plus, before, total);
            }
            ctx = Markov::<S>::advance(ctx, s);
        }
        assert(symbols.take(symbols.len() as int) =~= symbols);
        assert(lookup(symbols, symbols.len() as int) == ctx * ALPHA + BOUND);
        total = plus(total, self.logp(ctx, BOUND));
        proof {
            lemma_one_more(self.table(), symbols, zero, plus, sums, total);
            sums = sums.push(total);
        }
        average(total, bytes.len() + 1)
    }
}

/// Table index of transition `i` of a word: the context made by the symbols
/// before it, followed by the symbol itself, or by the boundary at the end.
pub open spec fn lookup(symbols: Seq<u8>, i: int) -> int {
    context_after(symbols.take(i)) * ALPHA + symbols.push(BOUND)[i]
}

/// `sums` starts at `zero` and adds the log probabilities of the first
/// transitions of a word one by one.
pub open spec fn is_running_sum<S, A: Fn(S, S) -> S>(
    table: Seq<S>,
    symbols: Seq<u8>,
    zero: S,
    plus: A,
    sums: Seq<S>,
) -> bool {
    &&& 1 <= sums.len() <= symbols.len() + 2
    &&& sums[0] == zero
    &&& forall|i: int| 1 <= i < sums.len() ==> #[trigger] adds_at(table, symbols, plus, sums, i)
}

/// The sum at `i` is the one before it and the log probability of the transition
/// before `i`.
pub open spec fn adds_at<S, A: Fn(S, S) -> S>(
    table: Seq<S>,
    symbols: Seq<u8>,
    plus: A,
    sums: Seq<S>,
    i: int,
) -> bool {
    call_ensures(plus, (sums[i - 1], table[lookup(symbols, i - 1)]), sums[i])
}

/// `r` is a score of a word: the sum over all its transitions, the final boundary
/// included, divided by their number.
pub open spec fn is_score<S, A: Fn(S, S) -> S, D: Fn(S, usize) -> S>(
    table: Seq<S>,
    word: Seq<char>,
    zero: S,
    plus: A,
    average: D,
    r: S,
) -> bool {
    let bytes = encode_utf8(word);
    exists|sums: Seq<S>|
        {
            &&& #[trigger] is_running_sum(table, symbols_of(bytes), zero, plus, sums)
            &&& sums.len() == bytes.len() + 2
            &&& call_ensures(average, (sums.last(), (bytes.len() + 1) as usize), r)
        }
}

/// A running sum with one more term.
proof fn lemma_one_more<S, A: Fn(S, S) -> S>(
    table: Seq<S>,
    symbols: Seq<u8>,
    zero: S,
    plus: A,
    sums: Seq<S>,
    total: S,
)
    requires
        is_running_sum(table, symbols, zero, plus, sums),
        sums.len() <= symbols.len() + 1,
        call_ensures(plus, (sums.last(), table[lookup(symbols, sums.len() - 1)]), total),
    ensures
        is_running_sum(table, symbols, zero, plus, sums.push(total)),
{
    let more = sums.push(total);
    assert forall|i: int| 1 <= i < more.len() implies #[trigger] adds_at(
        table,
        symbols,
        plus,
        more,
        i,
    ) by {
        if i < sums.len() {
            assert(adds_at(table, symbols, plus, sums, i));
        }
    }
}

/// Reading a word symbol by symbol keeps exactly its last three symbols, the
/// boundaries in front included.
pub proof fn context_is_last_three(symbols: Seq<u8>, i: int)
    requires
        0 <= i <= symbols.len(),
        forall|j: int| 0 <= j < symbols.len() ==> #[trigger] symbols[j] <= BOUND,
    ensures
        context_after(symbols.take(i)) == context_of(
            padded(symbols)[i],
            padded(symbols)[i + 1],
            padded(symbols)[i + 2],
        ),
        context_after(symbols.take(i)) < N3,
    decreases i,
{
    let s = padded(symbols);
    if i > 0 {
        context_is_last_three(symbols, i - 1);
        assert(symbols.take(i).drop_last() =~= symbols.take(i - 1));
        assert(symbols.take(i).last() == s[i + 2]);
        let a = s[i - 1] as int;
        let b = s[i] as int;
        let c = s[i + 1] as int;
        if i == 1 {
            assert(s[i] == BOUND && s[i + 1] == BOUND);
        } else if i == 2 {
            assert(s[i] == BOUND && s[i + 1] == symbols[0]);
        } else {
            assert(s[i] == symbols[i - 3] && s[i + 1] == symbols[i - 2]);
        }
        assert(((a * 27 + b) * 27 + c) % 729 == b * 27 + c) by (nonlinear_arith)
            requires
                0 <= a,
                0 <= b <= 26,
                0 <= c <= 26,
        ;
    }
}

/// Scoring a word looks up exactly the transitions that training on that word
/// counts, in the same order.
pub proof fn lookups_are_counted_transitions(symbols: Seq<u8>, i: int)
    requires
        0 <= i <= symbols.len(),
        forall|j: int| 0 <= j < symbols.len() ==> #[trigger] symbols[j] <= BOUND,
    ensures
        lookup(symbols, i) == word_grams(symbols, 3)[i],
        0 <= lookup(symbols, i) < N3 * ALPHA,
{
    let s = padded(symbols);
    context_is_last_three(symbols, i);
    assert forall|j: int| 0 <= j < s.len() implies #[trigger] s[j] <= BOUND by {
        if 3 <= j < 3 + symbols.len() {
            assert(s[j] == symbols[j - 3]);
        }
    }
    lemma_gram_index(s, i + 3);
    assert(s[i + 3] == symbols.push(BOUND)[i]);
}

// What training and scoring come to

/// A word as numbers, the letter a as zero, with three boundaries in front of it and
/// one behind it.
pub open spec fn bounded(bytes: Seq<u8>) -> Seq<u8> {
    seq![26u8, 26u8, 26u8] + Seq::new(bytes.len(), |i: int| (bytes[i] - 97) as u8) + seq![26u8]
}

/// The transitions of a word: each symbol, and the boundary behind the last one,
/// with the three symbols before it.
pub open spec fn word_transitions(bytes: Seq<u8>) -> Seq<Seq<u8>> {
    Seq::new(bytes.len() + 1, |i: int| bounded(bytes).subrange(i, i + 4))
}

/// The transitions of a corpus, word after word.
pub open spec fn transitions(words: Seq<String>) -> Seq<Seq<u8>>
    decreases words.len(),
{
    if words.len() == 0 {
        Seq::empty()
    } else {
        transitions(words.drop_last()) + word_transitions(encode_utf8(words.last()@))
    }
}

/// The transition ends with the symbols of `g`.
pub open spec fn ends_with(g: Seq<u8>) -> spec_fn(Seq<u8>) -> bool {
    |t: Seq<u8>| t.subrange(4 - g.len(), 4) == g
}

/// The symbols of `c` stand right before the last symbol of the transition.
pub open spec fn comes_after(c: Seq<u8>) -> spec_fn(Seq<u8>) -> bool {
    |t: Seq<u8>| t.subrange(3 - c.len(), 3) == c
}

/// How often the symbols of `g` follow one another in a corpus.
pub open spec fn times_seen(words: Seq<String>, g: Seq<u8>) -> nat {
    transitions(words).filter(ends_with(g)).len()
}

/// How often something follows the symbols of `c` in a corpus.
pub open spec fn times_followed(words: Seq<String>, c: Seq<u8>) -> nat {
    transitions(words).filter(comes_after(c)).len()
}

/// The symbols that follow those of `c` somewhere in a corpus.
pub open spec fn followers(words: Seq<String>, c: Seq<u8>) -> Set<u8> {
    Set::new(
        |x: u8|
            exists|j: int|
                0 <= j < transitions(words).len() && comes_after(c)(#[trigger] transitions(words)[j])
                    && transitions(words)[j][3] == x,
    )
}

/// Only letters and boundaries.
pub open spec fn are_symbols(g: Seq<u8>) -> bool {
    forall|i: int| 0 <= i < g.len() ==> #[trigger] g[i] <= 26
}

/// Where symbols stand among all those of the same length, in dictionary order.
pub open spec fn place(g: Seq<u8>) -> int
    decreases g.len(),
{
    if g.len() == 0 {
        0
    } else {
        place(g.drop_last()) * 27 + g.last()
    }
}

/// `p` has for `g` the probability of its last symbol behind the others: by the base
/// formula for a symbol alone; what the shorter context says, where nothing was seen
/// behind the longer one; else the mixture of how often the symbol was seen there,
/// how often anything was, how many different symbols were, and what the shorter
/// context says.
pub open spec fn has_probability<S, B: Fn(u32, u64) -> S, M: Fn(u32, u64, u32, S) -> S>(
    words: Seq<String>,
    base: B,
    mix: M,
    p: spec_fn(Seq<u8>) -> S,
    g: Seq<u8>,
) -> bool {
    let c = g.drop_last();
    let seen = times_seen(words, g);
    let n = times_followed(words, c);
    let t = followers(words, c).len();
    if g.len() == 1 {
        call_ensures(base, (seen as u32, n as u64), p(g))
    } else if n == 0 {
        p(g) == p(g.drop_first())
    } else {
        call_ensures(mix, (seen as u32, n as u64, t as u32, p(g.drop_first())), p(g))
    }
}

/// `p` has the probabilities of all symbols behind up to three others, and the
/// table has those behind three, finished.
pub open spec fn is_witten_bell<
    S,
    B: Fn(u32, u64) -> S,
    M: Fn(u32, u64, u32, S) -> S,
    L: Fn(S) -> S,
>(
    words: Seq<String>,
    base: B,
    mix: M,
    finish: L,
    table: Seq<S>,
    p: spec_fn(Seq<u8>) -> S,
) -> bool {
    &&& forall|g: Seq<u8>|
        1 <= g.len() <= 4 && are_symbols(g) ==> #[trigger] has_probability(words, base, mix, p, g)
    &&& forall|g: Seq<u8>|
        g.len() == 4 && #[trigger] are_symbols(g) ==> call_ensures(
            finish,
            (p(g),),
            table[place(g)],
        )
}

proof fn lemma_places(g: Seq<u8>)
    requires
        g.len() <= 4,
        are_symbols(g),
    ensures
        g.len() == 1 ==> place(g) == g[0],
        g.len() == 2 ==> place(g) == g[0] * 27 + g[1],
        g.len() == 3 ==> place(g) == (g[0] * 27 + g[1]) * 27 + g[2],
        g.len() == 4 ==> place(g) == ((g[0] * 27 + g[1]) * 27 + g[2]) * 27 + g[3],
        place(g) >= 0,
        g.len() == 0 ==> place(g) == 0,
        g.len() == 1 ==> place(g) < 27,
        g.len() == 2 ==> place(g) < 729,
        g.len() == 3 ==> place(g) < 19683,
        g.len() == 4 ==> place(g) < 19683 * 27,
{
    reveal_with_fuel(place, 5);
    if g.len() >= 1 {
        let a = g.drop_last();
        assert(g.last() == g[g.len() - 1]);
        if g.len() >= 2 {
            let b = a.drop_last();
            assert(a.last() == g[g.len() - 2]);
            if g.len() >= 3 {
                let c = b.drop_last();
                assert(b.last() == g[g.len() - 3]);
                if g.len() >= 4 {
                    assert(c.last() == g[0]);
                    assert(place(c.drop_last()) == 0);
                }
            }
        }
    }
}

/// Different symbols of the same number have different places.
proof fn lemma_places_differ(a: Seq<u8>, b: Seq<u8>)
    requires
        a.len() == b.len(),
        are_symbols(a),
        are_symbols(b),
        place(a) == place(b),
    ensures
        a == b,
    decreases a.len(),
{
    if a.len() > 0 {
        let n = a.len() - 1;
        assert(a[n] <= 26 && b[n] <= 26);
        assert(place(a.drop_last()) == place(b.drop_last()) && a.last() == b.last());
        assert forall|i: int| 0 <= i < n implies #[trigger] a.drop_last()[i] <= 26 by {
            assert(a[i] <= 26);
        }
        assert forall|i: int| 0 <= i < n implies #[trigger] b.drop_last()[i] <= 26 by {
            assert(b[i] <= 26);
        }
        lemma_places_differ(a.drop_last(), b.drop_last());
        assert(a =~= a.drop_last().push(a.last()));
        assert(b =~= b.drop_last().push(b.last()));
    } else {
        assert(a =~= b);
    }
}

proof fn lemma_bounded(bytes: Seq<u8>)
    requires
        in_alphabet(bytes),
    ensures
        bounded(bytes) == padded(symbols_of(bytes)),
        are_symbols(bounded(bytes)),
{
    assert(bounded(bytes) =~= padded(symbols_of(bytes)));
    assert forall|i: int| 0 <= i < bounded(bytes).len() implies #[trigger] bounded(bytes)[i]
        <= 26 by {
        if 3 <= i < 3 + bytes.len() {
            assert(LETTER_A <= bytes[i - 3] <= LETTER_A + BOUND);
        }
    }
}

/// A counted index is the place of the last symbols of a transition.
proof fn lemma_word_transition(bytes: Seq<u8>, k: nat, j: int)
    requires
        in_alphabet(bytes),
        k <= 3,
        0 <= j <= bytes.len(),
    ensures
        word_grams(symbols_of(bytes), k)[j] == place(
            word_transitions(bytes)[j].subrange(3 - k, 4),
        ),
        word_transitions(bytes)[j].len() == 4,
        are_symbols(word_transitions(bytes)[j]),
{
    lemma_bounded(bytes);
    let s = bounded(bytes);
    let t = word_transitions(bytes)[j];
    assert(t =~= s.subrange(j, j + 4));
    assert forall|i: int| 0 <= i < 4 implies #[trigger] t[i] <= 26 by {
        assert(t[i] == s[j + i]);
        assert(s[j + i] <= 26);
    }
    assert(t[0] == s[j] && t[1] == s[j + 1] && t[2] == s[j + 2] && t[3] == s[j + 3]);
    lemma_gram_index(s, j + 3);
    let g = t.subrange(3 - k, 4);
    assert forall|i: int| 0 <= i < g.len() implies #[trigger] g[i] <= 26 by {
        assert(g[i] == t[3 - k + i]);
    }
    lemma_places(g);
}

/// The transitions of a corpus are counted one by one.
proof fn lemma_transitions(words: Seq<String>, k: nat, j: int)
    requires
        forall|i: int| 0 <= i < words.len() ==> in_alphabet(encode_utf8(#[trigger] words[i]@)),
        k <= 3,
        0 <= j < transitions(words).len(),
    ensures
        transitions(words).len() == corpus_grams(words, k).len(),
        corpus_grams(words, k)[j] == place(transitions(words)[j].subrange(3 - k, 4)),
        transitions(words)[j].len() == 4,
        are_symbols(transitions(words)[j]),
    decreases words.len(),
{
    lemma_transitions_len(words, k);
    if words.len() > 0 {
        let rest = words.drop_last();
        let bytes = encode_utf8(words.last()@);
        lemma_transitions_len(rest, k);
        assert(in_alphabet(encode_utf8(words[words.len() - 1]@)));
        assert forall|i: int| 0 <= i < rest.len() implies in_alphabet(
            encode_utf8(#[trigger] rest[i]@),
        ) by {
            assert(rest[i] == words[i]);
        }
        let n = transitions(rest).len();
        if j < n {
            lemma_transitions(rest, k, j);
        } else {
            lemma_word_transition(bytes, k, j - n);
            assert(transitions(words)[j] == word_transitions(bytes)[j - n]);
        }
    }
}

proof fn lemma_transitions_len(words: Seq<String>, k: nat)
    ensures
        transitions(words).len() == corpus_grams(words, k).len(),
    decreases words.len(),
{
    if words.len() > 0 {
        lemma_transitions_len(words.drop_last(), k);
    }
}

/// A number occurs in a list as often as the test that tells it.
proof fn lemma_count_by_test(s: Seq<int>, x: int, t: Seq<Seq<u8>>, p: spec_fn(Seq<u8>) -> bool)
    requires
        s.len() == t.len(),
        forall|j: int| 0 <= j < s.len() ==> (s[j] == x) == p(#[trigger] t[j]),
    ensures
        s.to_multiset().count(x) == t.filter(p).len(),
    decreases s.len(),
{
    reveal(Seq::filter);
    s.to_multiset_ensures();
    if s.len() > 0 {
        let n = s.len() - 1;
        let rest = s.drop_last();
        rest.to_multiset_ensures();
        assert(s =~= rest.push(s.last()));
        assert forall|j: int| 0 <= j < rest.len() implies (rest[j] == x) == p(
            #[trigger] t.drop_last()[j],
        ) by {
            assert(t.drop_last()[j] == t[j]);
        }
        lemma_count_by_test(rest, x, t.drop_last(), p);
        assert(t.last() == t[n]);
        assert((s[n] == x) == p(t[n]));
    } else {
        assert(s.to_multiset().len() == 0);
    }
}

/// The tally of a place is how often its symbols were seen.
proof fn lemma_tally_is_times_seen(words: Seq<String>, counts: Seq<u32>, g: Seq<u8>)
    requires
        forall|i: int| 0 <= i < words.len() ==> in_alphabet(encode_utf8(#[trigger] words[i]@)),
        1 <= g.len() <= 4,
        are_symbols(g),
        tallies(counts, corpus_grams(words, (g.len() - 1) as nat)),
        place(g) < counts.len(),
    ensures
        counts[place(g)] == times_seen(words, g),
{
    let k = (g.len() - 1) as nat;
    let grams = corpus_grams(words, k);
    let ts = transitions(words);
    let p = ends_with(g);
    lemma_places(g);
    lemma_transitions_len(words, k);
    assert forall|j: int| 0 <= j < grams.len() implies (grams[j] == place(g)) == p(
        #[trigger] ts[j],
    ) by {
        lemma_transitions(words, k, j);
        let h = ts[j].subrange(3 - k, 4);
        assert forall|i: int| 0 <= i < h.len() implies #[trigger] h[i] <= 26 by {
            assert(h[i] == ts[j][3 - k + i]);
        }
        if grams[j] == place(g) {
            lemma_places_differ(h, g);
        }
    }
    lemma_count_by_test(grams, place(g), ts, p);
    assert(counts[place(g)] == grams.to_multiset().count(place(g)));
}

/// The test for symbols one more of which is chosen.
proof fn lemma_ends_with(c: Seq<u8>, x: u8, t: Seq<u8>)
    requires
        t.len() == 4,
        c.len() <= 3,
    ensures
        ends_with(c.push(x))(t) <==> comes_after(c)(t) && t[3] == x,
{
    let m = c.len() as int;
    let whole = t.subrange(3 - m, 4);
    let head = t.subrange(3 - m, 3);
    assert(whole =~= head.push(t[3]));
    if whole == c.push(x) {
        assert(whole.drop_last() =~= head);
        assert(c.push(x).drop_last() =~= c);
        assert(whole.last() == t[3]);
        assert(c.push(x).last() == x);
    }
}

proof fn lemma_filter_both(
    s: Seq<Seq<u8>>,
    p: spec_fn(Seq<u8>) -> bool,
    q: spec_fn(Seq<u8>) -> bool,
    r: spec_fn(Seq<u8>) -> bool,
)
    requires
        forall|j: int| 0 <= j < s.len() ==> r(#[trigger] s[j]) == (p(s[j]) || q(s[j])),
        forall|j: int| 0 <= j < s.len() ==> !(p(#[trigger] s[j]) && q(s[j])),
    ensures
        s.filter(r).len() == s.filter(p).len() + s.filter(q).len(),
    decreases s.len(),
{
    reveal(Seq::filter);
    if s.len() > 0 {
        let n = s.len() - 1;
        let rest = s.drop_last();
        assert forall|j: int| 0 <= j < rest.len() implies r(#[trigger] rest[j]) == (p(rest[j])
            || q(rest[j])) by {
            assert(rest[j] == s[j]);
        }
        assert forall|j: int| 0 <= j < rest.len() implies !(p(#[trigger] rest[j]) && q(
            rest[j],
        )) by {
            assert(rest[j] == s[j]);
        }
        lemma_filter_both(rest, p, q, r);
        assert(r(s[n]) == (p(s[n]) || q(s[n])));
        assert(!(p(s[n]) && q(s[n])));
    }
}

proof fn lemma_filter_same(
    s: Seq<Seq<u8>>,
    p: spec_fn(Seq<u8>) -> bool,
    q: spec_fn(Seq<u8>) -> bool,
)
    requires
        forall|j: int| 0 <= j < s.len() ==> p(#[trigger] s[j]) == q(s[j]),
    ensures
        s.filter(p) == s.filter(q),
    decreases s.len(),
{
    reveal(Seq::filter);
    if s.len() > 0 {
        let rest = s.drop_last();
        assert forall|j: int| 0 <= j < rest.len() implies p(#[trigger] rest[j]) == q(rest[j]) by {
            assert(rest[j] == s[j]);
        }
        lemma_filter_same(rest, p, q);
        assert(p(s[s.len() - 1]) == q(s[s.len() - 1]));
    }
}

/// A row that has the number of times each symbol was seen behind `c`.
spec fn is_row_of(words: Seq<String>, c: Seq<u8>, row: Seq<u32>) -> bool {
    &&& row.len() == 27
    &&& forall|x: u8| x < 27 ==> #[trigger] row[x as int] == times_seen(words, c.push(x))
}

spec fn comes_after_below(c: Seq<u8>, n: int) -> spec_fn(Seq<u8>) -> bool {
    |t: Seq<u8>| comes_after(c)(t) && t[3] < n
}

proof fn lemma_row_mass(words: Seq<String>, c: Seq<u8>, row: Seq<u32>, n: int)
    requires
        forall|i: int| 0 <= i < words.len() ==> in_alphabet(encode_utf8(#[trigger] words[i]@)),
        c.len() <= 3,
        is_row_of(words, c, row),
        0 <= n <= 27,
    ensures
        mass(row.take(n)) == transitions(words).filter(comes_after_below(c, n)).len(),
    decreases n,
{
    let ts = transitions(words);
    if n == 0 {
        let none = |t: Seq<u8>| false;
        lemma_filter_same(ts, comes_after_below(c, 0), none);
        lemma_filter_both(ts, none, none, none);
        assert(ts.filter(none).len() == 0);
    } else {
        lemma_row_mass(words, c, row, n - 1);
        let x = (n - 1) as u8;
        assert(row.take(n).drop_last() =~= row.take(n - 1));
        assert(row.take(n).last() == row[x as int]);
        assert forall|j: int| 0 <= j < ts.len() implies {
            &&& comes_after_below(c, n)(#[trigger] ts[j]) == (comes_after_below(c, n - 1)(ts[j])
                || ends_with(c.push(x))(ts[j]))
            &&& !(comes_after_below(c, n - 1)(ts[j]) && ends_with(c.push(x))(ts[j]))
        } by {
            lemma_transitions(words, 0, j);
            lemma_ends_with(c, x, ts[j]);
        }
        lemma_filter_both(
            ts,
            comes_after_below(c, n - 1),
            ends_with(c.push(x)),
            comes_after_below(c, n),
        );
    }
}

/// The mass of a row is how often anything was seen behind its context.
proof fn lemma_mass_is_times_followed(words: Seq<String>, c: Seq<u8>, row: Seq<u32>)
    requires
        forall|i: int| 0 <= i < words.len() ==> in_alphabet(encode_utf8(#[trigger] words[i]@)),
        c.len() <= 3,
        is_row_of(words, c, row),
    ensures
        mass(row) == times_followed(words, c),
{
    let ts = transitions(words);
    lemma_row_mass(words, c, row, 27);
    assert(row.take(27) =~= row);
    assert forall|j: int| 0 <= j < ts.len() implies comes_after_below(c, 27)(#[trigger] ts[j])
        == comes_after(c)(ts[j]) by {
        lemma_transitions(words, 0, j);
        assert(ts[j][3] <= 26);
    }
    lemma_filter_same(ts, comes_after_below(c, 27), comes_after(c));
}

/// The first `n` symbols with a count.
spec fn counted_below(row: Seq<u32>, n: int) -> Set<u8> {
    Set::new(|x: u8| x < n && row[x as int] > 0)
}

proof fn lemma_diversity(row: Seq<u32>, n: int)
    requires
        0 <= n <= row.len() <= 27,
    ensures
        diversity(row.take(n)) == counted_below(row, n).len(),
        counted_below(row, n).finite(),
    decreases n,
{
    if n == 0 {
        assert(counted_below(row, 0) =~= Set::empty());
    } else {
        lemma_diversity(row, n - 1);
        let x = (n - 1) as u8;
        assert(row.take(n).drop_last() =~= row.take(n - 1));
        if row[n - 1] > 0 {
            assert(counted_below(row, n) =~= counted_below(row, n - 1).insert(x));
        } else {
            assert(counted_below(row, n) =~= counted_below(row, n - 1));
        }
    }
}

/// The number of distinct continuations that a context is weighted by is the number
/// of the symbols with a count, however often each of them was seen; there is one
/// exactly when anything was seen.
pub proof fn diversity_is_the_number_of_counted_symbols(row: Seq<u32>)
    requires
        row.len() <= 27,
    ensures
        diversity(row) == Set::new(|x: u8| x < row.len() && row[x as int] > 0).len(),
        diversity(row) > 0 <==> mass(row) > 0,
{
    lemma_diversity(row, row.len() as int);
    assert(row.take(row.len() as int) =~= row);
    assert(counted_below(row, row.len() as int) =~= Set::new(
        |x: u8| x < row.len() && row[x as int] > 0,
    ));
    lemma_some_mass(row);
}

proof fn lemma_some_mass(row: Seq<u32>)
    ensures
        diversity(row) > 0 <==> mass(row) > 0,
    decreases row.len(),
{
    if row.len() > 0 {
        lemma_some_mass(row.drop_last());
    }
}

/// The diversity of a row is the number of symbols seen behind its context.
proof fn lemma_diversity_is_followers(words: Seq<String>, c: Seq<u8>, row: Seq<u32>)
    requires
        forall|i: int| 0 <= i < words.len() ==> in_alphabet(encode_utf8(#[trigger] words[i]@)),
        c.len() <= 3,
        is_row_of(words, c, row),
    ensures
        diversity(row) == followers(words, c).len(),
{
    let ts = transitions(words);
    lemma_diversity(row, 27);
    assert(row.take(27) =~= row);
    assert forall|x: u8| counted_below(row, 27).contains(x) == #[trigger] followers(
        words,
        c,
    ).contains(x) by {
        if counted_below(row, 27).contains(x) {
            assert(row[x as int] == times_seen(words, c.push(x)));
            let found = ts.filter(ends_with(c.push(x)));
            assert(found.contains(found[0]));
            ts.lemma_filter_pred(ends_with(c.push(x)), 0);
            ts.lemma_filter_contains_rev(ends_with(c.push(x)), found[0]);
            let j = choose|j: int| 0 <= j < ts.len() && ts[j] == found[0];
            lemma_transitions(words, 0, j);
            lemma_ends_with(c, x, ts[j]);
            assert(comes_after(c)(ts[j]) && ts[j][3] == x);
        }
        if followers(words, c).contains(x) {
            let j = choose|j: int|
                0 <= j < ts.len() && comes_after(c)(#[trigger] ts[j]) && ts[j][3] == x;
            lemma_transitions(words, 0, j);
            lemma_ends_with(c, x, ts[j]);
            ts.lemma_filter_contains(ends_with(c.push(x)), j);
            assert(times_seen(words, c.push(x)) > 0);
            assert(ts[j][3] <= 26);
            assert(row[x as int] == times_seen(words, c.push(x)));
        }
    }
    assert(counted_below(row, 27) =~= followers(words, c));
}

/// A row of a table of counts.
proof fn lemma_row(words: Seq<String>, counts: Seq<u32>, c: Seq<u8>)
    requires
        forall|i: int| 0 <= i < words.len() ==> in_alphabet(encode_utf8(#[trigger] words[i]@)),
        c.len() <= 3,
        are_symbols(c),
        tallies(counts, corpus_grams(words, c.len())),
        (place(c) + 1) * 27 <= counts.len(),
    ensures
        is_row_of(words, c, row_of(counts, place(c))),
{
    let row = row_of(counts, place(c));
    lemma_places(c);
    assert forall|x: u8| x < 27 implies #[trigger] row[x as int] == times_seen(
        words,
        c.push(x),
    ) by {
        let g = c.push(x);
        assert forall|i: int| 0 <= i < g.len() implies #[trigger] g[i] <= 26 by {
            if i < c.len() {
                assert(g[i] == c[i]);
            }
        }
        assert(g.drop_last() =~= c);
        assert(place(g) == place(c) * 27 + x);
        lemma_tally_is_times_seen(words, counts, g);
    }
}

/// The first symbol of a context is the one that is left aside.
proof fn lemma_back(g: Seq<u8>)
    requires
        2 <= g.len() <= 4,
        are_symbols(g),
    ensures
        are_symbols(g.drop_last()),
        are_symbols(g.drop_first()),
        place(g) == place(g.drop_last()) * 27 + g.last(),
        0 <= place(g.drop_last()),
        place(g) / 27 == place(g.drop_last()),
        place(g) % 27 == g.last(),
        g.len() == 2 ==> place(g.drop_first()) == (place(g.drop_last()) % 1) * 27 + g.last(),
        g.len() == 3 ==> place(g.drop_first()) == (place(g.drop_last()) % 27) * 27 + g.last(),
        g.len() == 4 ==> place(g.drop_first()) == (place(g.drop_last()) % 729) * 27 + g.last(),
{
    let c = g.drop_last();
    let d = g.drop_first();
    assert forall|i: int| 0 <= i < c.len() implies #[trigger] c[i] <= 26 by {
        assert(c[i] == g[i]);
    }
    assert forall|i: int| 0 <= i < d.len() implies #[trigger] d[i] <= 26 by {
        assert(d[i] == g[i + 1]);
    }
    assert(g[g.len() - 1] <= 26);
    lemma_places(g);
    lemma_places(c);
    lemma_places(d);
    assert(g[0] <= 26 && g[1] <= 26);
}

proof fn lemma_level<S, M: Fn(u32, u64, u32, S) -> S, B: Fn(u32, u64) -> S>(
    words: Seq<String>,
    counts: Seq<u32>,
    lower: Seq<S>,
    n_lower: int,
    base: B,
    mix: M,
    level: Seq<S>,
    p: spec_fn(Seq<u8>) -> S,
    g: Seq<u8>,
)
    requires
        forall|i: int| 0 <= i < words.len() ==> in_alphabet(encode_utf8(#[trigger] words[i]@)),
        2 <= g.len() <= 4,
        are_symbols(g),
        tallies(counts, corpus_grams(words, (g.len() - 1) as nat)),
        is_smoothed_level(counts, lower, n_lower, mix, level),
        place(g) < counts.len(),
        (place(g.drop_last()) + 1) * 27 <= counts.len(),
        n_lower > 0,
        place(g.drop_first()) == (place(g.drop_last()) % n_lower) * 27 + g.last(),
        p(g) == level[place(g)],
        p(g.drop_first()) == lower[place(g.drop_first())],
    ensures
        has_probability(words, base, mix, p, g),
{
    lemma_back(g);
    let c = g.drop_last();
    let x = place(g);
    let row = row_of(counts, place(c));
    lemma_row(words, counts, c);
    lemma_mass_is_times_followed(words, c, row);
    lemma_diversity_is_followers(words, c, row);
    lemma_tally_is_times_seen(words, counts, g);
    assert(is_smoothed_cell(counts, lower, n_lower, mix, x, level[x]));
}

/// A model that was trained on a corpus has in its table, for every symbol behind
/// every three others, the Witten-Bell estimate from the transitions of the corpus.
/// A context is weighted by how often anything follows it and by how many different
/// symbols do; what follows it less, or never, gets its share by the shorter
/// context; and what follows a symbol alone by the base formula.
pub proof fn training_is_witten_bell<
    S,
    B: Fn(u32, u64) -> S,
    M: Fn(u32, u64, u32, S) -> S,
    L: Fn(S) -> S,
>(words: Seq<String>, base: B, mix: M, finish: L, table: Seq<S>)
    requires
        forall|i: int| 0 <= i < words.len() ==> in_alphabet(encode_utf8(#[trigger] words[i]@)),
        is_trained(words, base, mix, finish, table),
    ensures
        exists|p: spec_fn(Seq<u8>) -> S| #[trigger]
            is_witten_bell(words, base, mix, finish, table, p),
{
    let k = choose|k: Counts|
        k.wf() && #[trigger] k.counts_of(words) && is_table(k, base, mix, finish, table);
    let (p0, p1, p2, p3) = choose|p0: Seq<S>, p1: Seq<S>, p2: Seq<S>, p3: Seq<S>|
        {
            &&& #[trigger] is_base_level(k.c0@, base, p0)
            &&& #[trigger] is_smoothed_level(k.c1@, p0, 1, mix, p1)
            &&& #[trigger] is_smoothed_level(k.c2@, p1, N1 as int, mix, p2)
            &&& #[trigger] is_smoothed_level(k.c3@, p2, N2 as int, mix, p3)
            &&& table.len() == p3.len()
            &&& forall|x: int|
                0 <= x < table.len() ==> call_ensures(finish, (p3[x],), #[trigger] table[x])
        };
    let p = |g: Seq<u8>|
        if g.len() == 1 {
            p0[place(g)]
        } else if g.len() == 2 {
            p1[place(g)]
        } else if g.len() == 3 {
            p2[place(g)]
        } else {
            p3[place(g)]
        };
    assert forall|g: Seq<u8>|
        1 <= g.len() <= 4 && are_symbols(g) implies #[trigger] has_probability(
        words,
        base,
        mix,
        p,
        g,
    ) by {
        lemma_places(g);
        if g.len() == 1 {
            let c = g.drop_last();
            assert(c =~= Seq::empty());
            assert(place(c) == 0);
            assert(row_of(k.c0@, 0) =~= k.c0@);
            lemma_row(words, k.c0@, c);
            lemma_mass_is_times_followed(words, c, k.c0@);
            lemma_tally_is_times_seen(words, k.c0@, g);
            assert(call_ensures(base, (k.c0@[place(g)], mass(k.c0@) as u64), p0[place(g)]));
        } else {
            lemma_back(g);
            lemma_places(g.drop_last());
            lemma_places(g.drop_first());
            if g.len() == 2 {
                lemma_level(words, k.c1@, p0, 1, base, mix, p1, p, g);
            } else if g.len() == 3 {
                lemma_level(words, k.c2@, p1, N1 as int, base, mix, p2, p, g);
            } else {
                lemma_level(words, k.c3@, p2, N2 as int, base, mix, p3, p, g);
            }
        }
    }
    assert forall|g: Seq<u8>| g.len() == 4 && #[trigger] are_symbols(g) implies call_ensures(
        finish,
        (p(g),),
        table[place(g)],
    ) by {
        lemma_places(g);
        assert(call_ensures(finish, (p3[place(g)],), table[place(g)]));
    }
    assert(is_witten_bell(words, base, mix, finish, table, p));
}

/// The letters of the alphabet are a to z, and the character behind z stands for a
/// boundary.
pub proof fn the_alphabet(bytes: Seq<u8>)
    ensures
        in_alphabet(bytes) <==> forall|i: int|
            0 <= i < bytes.len() ==> 97 <= #[trigger] bytes[i] && bytes[i] <= 123,
{
}

/// A context is the place of its three symbols, and going on with one more symbol
/// leaves the first of them out.
pub proof fn contexts_move_on(a: u8, b: u8, c: u8, next: u8)
    requires
        a <= 26,
        b <= 26,
        c <= 26,
        next <= 26,
    ensures
        context_of(a, b, c) == place(seq![a, b, c]),
        context_of(a, b, c) < 19683,
        shifted(context_of(a, b, c), next) == context_of(b, c, next),
{
    let g = seq![a, b, c];
    assert(are_symbols(g));
    lemma_places(g);
    let x = a as int;
    let y = b as int;
    let z = c as int;
    assert(((x * 27 + y) * 27 + z) % 729 == y * 27 + z) by (nonlinear_arith)
        requires
            0 <= x,
            0 <= y <= 26,
            0 <= z <= 26,
    ;
}

/// What is looked up for a word are the places of its transitions, in their order.
pub proof fn lookups_are_transitions(bytes: Seq<u8>, i: int)
    requires
        in_alphabet(bytes),
        0 <= i <= bytes.len(),
    ensures
        lookup(symbols_of(bytes), i) == place(word_transitions(bytes)[i]),
{
    let symbols = symbols_of(bytes);
    assert forall|j: int| 0 <= j < symbols.len() implies #[trigger] symbols[j] <= BOUND by {
        assert(LETTER_A <= bytes[j] <= LETTER_A + BOUND);
    }
    lookups_are_counted_transitions(symbols, i);
    lemma_word_transition(bytes, 3, i);
    let t = word_transitions(bytes)[i];
    assert(t.subrange(0, 4) =~= t);
}

/// `sums` adds up what the table has for the transitions of a word, one by one.
pub open spec fn adds_up<S, A: Fn(S, S) -> S>(
    table: Seq<S>,
    bytes: Seq<u8>,
    zero: S,
    plus: A,
    sums: Seq<S>,
) -> bool {
    &&& sums.len() == bytes.len() + 2
    &&& sums[0] == zero
    &&& forall|i: int|
        0 <= i <= bytes.len() ==> call_ensures(
            plus,
            (sums[i], table[place(#[trigger] word_transitions(bytes)[i])]),
            sums[i + 1],
        )
}

/// A score is the average over the transitions of a word of what the table has for
/// them: they are added up from zero in their order, the final boundary included,
/// and divided by their number.
pub proof fn scores_average_the_transitions<S, A: Fn(S, S) -> S, D: Fn(S, usize) -> S>(
    table: Seq<S>,
    word: Seq<char>,
    zero: S,
    plus: A,
    average: D,
    r: S,
)
    requires
        in_alphabet(encode_utf8(word)),
        is_score(table, word, zero, plus, average, r),
    ensures
        exists|sums: Seq<S>|
            {
                &&& #[trigger] adds_up(table, encode_utf8(word), zero, plus, sums)
                &&& call_ensures(
                    average,
                    (sums.last(), (encode_utf8(word).len() + 1) as usize),
                    r,
                )
            },
{
    let bytes = encode_utf8(word);
    let symbols = symbols_of(bytes);
    let sums = choose|sums: Seq<S>|
        {
            &&& #[trigger] is_running_sum(table, symbols, zero, plus, sums)
            &&& sums.len() == bytes.len() + 2
            &&& call_ensures(average, (sums.last(), (bytes.len() + 1) as usize), r)
        };
    assert forall|i: int| 0 <= i <= bytes.len() implies call_ensures(
        plus,
        (sums[i], table[place(#[trigger] word_transitions(bytes)[i])]),
        sums[i + 1],
    ) by {
        assert(adds_at(table, symbols, plus, sums, i + 1));
        lookups_are_transitions(bytes, i);
    }
    assert(adds_up(table, bytes, zero, plus, sums));
}

/// The counts of a corpus are how often its symbols follow one another: one alone,
/// two, three, and four in a row.
pub proof fn counts_are_times_seen(words: Seq<String>, k: Counts, g: Seq<u8>)
    requires
        forall|i: int| 0 <= i < words.len() ==> in_alphabet(encode_utf8(#[trigger] words[i]@)),
        k.wf(),
        k.counts_of(words),
        1 <= g.len() <= 4,
        are_symbols(g),
    ensures
        g.len() == 1 ==> k.c0@[place(g)] == times_seen(words, g),
        g.len() == 2 ==> k.c1@[place(g)] == times_seen(words, g),
        g.len() == 3 ==> k.c2@[place(g)] == times_seen(words, g),
        g.len() == 4 ==> k.c3@[place(g)] == times_seen(words, g),
        k.c0@.len() == 27,
        k.c1@.len() == 27 * 27,
        k.c2@.len() == 27 * 27 * 27,
        k.c3@.len() == 27 * 27 * 27 * 27,
{
    lemma_places(g);
    if g.len() == 1 {
        lemma_tally_is_times_seen(words, k.c0@, g);
    } else if g.len() == 2 {
        lemma_tally_is_times_seen(words, k.c1@, g);
    } else if g.len() == 3 {
        lemma_tally_is_times_seen(words, k.c2@, g);
    } else {
        lemma_tally_is_times_seen(words, k.c3@, g);
    }
}

} // verus!
