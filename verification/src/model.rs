//! From a corpus file to a trained model.

use crate::markov;
use crate::markov::Markov;
use crate::names;
use crate::text;
use vstd::prelude::*;
use vstd::seq_lib::*;
use vstd::utf8::*;

verus! {

/// Why no model can be trained.
#[derive(Debug, Clone, Copy, PartialEq, Eq, Structural)]
pub enum CorpusError {
    /// The corpus has no seed.
    Empty,
    /// The corpus has more transitions than can be counted.
    TooLarge,
}

impl CorpusError {
    /// The error in words.
    pub fn message(&self) -> (r: &'static str)
        ensures
            r@ == match self {
                CorpusError::Empty => "empty corpus"@,
                CorpusError::TooLarge => "the corpus is too large"@,
            },
    {
        match self {
            CorpusError::Empty => "empty corpus",
            CorpusError::TooLarge => "the corpus is too large",
        }
    }
}

/// Number of transitions in a list of words: one for every byte and one for
/// every end.
pub open spec fn transitions_in(words: Seq<Seq<char>>) -> nat
    decreases words.len(),
{
    if words.len() == 0 {
        0
    } else {
        transitions_in(words.drop_last()) + encode_utf8(words.last()).len() + 1
    }
}

proof fn lemma_transitions(words: Seq<String>)
    ensures
        markov::transition_count(words) == transitions_in(text::texts(words)),
    decreases words.len(),
{
    if words.len() > 0 {
        lemma_transitions(words.drop_last());
        assert(text::texts(words).drop_last() =~= text::texts(words.drop_last()));
    }
}

proof fn lemma_transitions_take(words: Seq<Seq<char>>, n: int)
    requires
        0 <= n <= words.len(),
    ensures
        transitions_in(words.take(n)) <= transitions_in(words),
    decreases words.len(),
{
    if n < words.len() {
        lemma_transitions_take(words.drop_last(), n);
        assert(words.drop_last().take(n) =~= words.take(n));
    } else {
        assert(words.take(n) =~= words);
    }
}

/// Tells whether the transitions of a corpus can be counted.
fn can_be_counted(words: &[String]) -> (r: bool)
    ensures
        r == (transitions_in(text::texts(words@)) <= u32::MAX),
{
    let ghost all = text::texts(words@);
    let mut left: u32 = u32::MAX;
    assert(all.take(0) =~= Seq::empty());
    for i in 0..words.len()
        invariant
            all == text::texts(words@),
            left == u32::MAX - transitions_in(all.take(i as int)),
    {
        proof {
            assert(all.take(i + 1).drop_last() =~= all.take(i as int));
            assert(all.take(i + 1).last() == words@[i as int]@);
            lemma_transitions_take(all, i + 1);
        }
        let n = words[i].as_str().as_bytes().len();
        if n >= left as usize {
            return false;
        }
        left = left - n as u32 - 1;
    }
    assert(all.take(words@.len() as int) =~= all);
    true
}

/// Reads a corpus and trains a model on it. `base`, `mix` and `finish` are the
/// arithmetic of the model.
pub fn load_model<S: Copy, B: Fn(u32, u64) -> S, M: Fn(u32, u64, u32, S) -> S, L: Fn(S) -> S>(
    raw: &str,
    base: B,
    mix: M,
    finish: L,
) -> (r: Result<(Markov<S>, Vec<String>), CorpusError>)
    requires
        forall|c: u32, n: u64| call_requires(base, (c, n)),
        forall|c: u32, n: u64, t: u32, p: S| call_requires(mix, (c, n, t, p)),
        forall|p: S| call_requires(finish, (p,)),
    ensures
        match r {
            Ok((m, words)) => {
                &&& text::texts(words@) == names::seeds_in(raw@)
                &&& words@.len() > 0
                &&& transitions_in(names::seeds_in(raw@)) <= u32::MAX
                &&& m.wf()
                &&& markov::is_trained(words@, base, mix, finish, m.table())
            },
            Err(CorpusError::Empty) => names::seeds_in(raw@).len() == 0,
            Err(CorpusError::TooLarge) => names::seeds_in(raw@).len() > 0 && transitions_in(
                names::seeds_in(raw@),
            ) > u32::MAX,
        },
{
    let words = names::corpus(raw);
    assert(text::texts(words@).len() == words@.len());
    if words.len() == 0 {
        return Err(CorpusError::Empty);
    }
    if !can_be_counted(words.as_slice()) {
        return Err(CorpusError::TooLarge);
    }
    proof {
        lemma_transitions(words@);
        assert forall|i: int| 0 <= i < words@.len() implies markov::in_alphabet(
            encode_utf8(#[trigger] words@[i]@),
        ) by {
            assert(text::texts(words@)[i] == words@[i]@);
            names::seeds_are_lowercase(raw@, i);
            names::lowercase_is_in_alphabet(words@[i]@);
        }
    }
    let m = Markov::train(words.as_slice(), base, mix, finish);
    Ok((m, words))
}

/// Every valid name can be scored by every model.
pub proof fn valid_names_can_be_scored<S>(m: Markov<S>, name: Seq<char>)
    requires
        m.wf(),
        names::is_valid_name(name),
    ensures
        forall|i: int|
            0 <= i < encode_utf8(name).len() ==> #[trigger] encode_utf8(name)[i]
                >= markov::LETTER_A,
        forall|i: int|
            0 <= i <= encode_utf8(name).len() ==> #[trigger] markov::lookup(
                markov::symbols_of(encode_utf8(name)),
                i,
            ) < m.table().len(),
        encode_utf8(name).len() < usize::MAX,
{
    names::lowercase_is_in_alphabet(name);
    let symbols = markov::symbols_of(encode_utf8(name));
    assert forall|i: int| 0 <= i <= encode_utf8(name).len() implies #[trigger] markov::lookup(
        symbols,
        i,
    ) < m.table().len() by {
        assert forall|j: int| 0 <= j < symbols.len() implies #[trigger] symbols[j]
            <= markov::BOUND by {
            assert(markov::LETTER_A <= encode_utf8(name)[j] <= markov::LETTER_A + markov::BOUND);
        }
        markov::lookups_are_counted_transitions(symbols, i);
    }
}

/// The transitions of a list of words, word after word.
spec fn grams_in(words: Seq<Seq<char>>, k: nat) -> Seq<int>
    decreases words.len(),
{
    if words.len() == 0 {
        Seq::empty()
    } else {
        grams_in(words.drop_last(), k) + grams_of_word(words.last(), k)
    }
}

/// The transitions of one word.
spec fn grams_of_word(word: Seq<char>, k: nat) -> Seq<int> {
    markov::word_grams(markov::symbols_of(encode_utf8(word)), k)
}

proof fn lemma_grams(words: Seq<String>, k: nat)
    ensures
        markov::corpus_grams(words, k) == grams_in(text::texts(words), k),
    decreases words.len(),
{
    if words.len() > 0 {
        lemma_grams(words.drop_last(), k);
        assert(text::texts(words).drop_last() =~= text::texts(words.drop_last()));
    }
}

/// Taking one word out takes its transitions out, wherever it stood.
proof fn lemma_grams_without(words: Seq<Seq<char>>, k: nat, j: int)
    requires
        0 <= j < words.len(),
    ensures
        grams_in(words, k).to_multiset() == grams_in(words.remove(j), k).to_multiset().add(
            grams_of_word(words[j], k).to_multiset(),
        ),
    decreases words.len(),
{
    let rest = words.drop_last();
    let last = grams_of_word(words.last(), k);
    lemma_multiset_commutative(grams_in(rest, k), last);
    if j == words.len() - 1 {
        assert(words.remove(j) =~= rest);
    } else {
        lemma_grams_without(rest, k, j);
        let left = words.remove(j);
        assert(left.drop_last() =~= rest.remove(j));
        assert(left.last() == words.last());
        lemma_multiset_commutative(grams_in(rest.remove(j), k), last);
        assert(grams_in(words, k).to_multiset() =~= grams_in(left, k).to_multiset().add(
            grams_of_word(words[j], k).to_multiset(),
        ));
    }
}

/// The same words in another order have the same transitions.
proof fn lemma_grams_in_any_order(a: Seq<Seq<char>>, b: Seq<Seq<char>>, k: nat)
    requires
        a.to_multiset() == b.to_multiset(),
    ensures
        grams_in(a, k).to_multiset() == grams_in(b, k).to_multiset(),
    decreases a.len(),
{
    a.to_multiset_ensures();
    b.to_multiset_ensures();
    if a.len() == 0 {
        assert(b.len() == 0);
    } else {
        let n = a.len() - 1;
        let word = a[n];
        assert(a.contains(word));
        assert(b.to_multiset().count(word) > 0);
        assert(b.contains(word));
        let j = choose|j: int| 0 <= j < b.len() && b[j] == word;
        assert(a.remove(n).to_multiset() =~= b.remove(j).to_multiset());
        assert(a.remove(n) =~= a.drop_last());
        lemma_grams_in_any_order(a.remove(n), b.remove(j), k);
        lemma_grams_without(a, k, n);
        lemma_grams_without(b, k, j);
    }
}

proof fn lemma_same_tallies(c: Seq<u32>, d: Seq<u32>, g: Seq<int>, h: Seq<int>)
    requires
        c.len() == d.len(),
        g.to_multiset() == h.to_multiset(),
        markov::tallies(c, g),
        markov::tallies(d, h),
    ensures
        c == d,
{
    assert forall|x: int| 0 <= x < c.len() implies c[x] == d[x] by {
        assert(c[x] == g.to_multiset().count(x));
        assert(d[x] == h.to_multiset().count(x));
    }
    assert(c =~= d);
}

/// The arithmetic has at most one result for given arguments.
pub open spec fn is_arithmetic<
    S,
    B: Fn(u32, u64) -> S,
    M: Fn(u32, u64, u32, S) -> S,
    L: Fn(S) -> S,
>(base: B, mix: M, finish: L) -> bool {
    &&& forall|c: u32, n: u64, u: S, v: S| #[trigger]
        call_ensures(base, (c, n), u) && #[trigger] call_ensures(base, (c, n), v) ==> u == v
    &&& forall|c: u32, n: u64, t: u32, p: S, u: S, v: S| #[trigger]
        call_ensures(mix, (c, n, t, p), u) && #[trigger] call_ensures(mix, (c, n, t, p), v) ==> u
            == v
    &&& forall|p: S, u: S, v: S| #[trigger]
        call_ensures(finish, (p,), u) && #[trigger] call_ensures(finish, (p,), v) ==> u == v
}

proof fn lemma_same_level<S, M: Fn(u32, u64, u32, S) -> S>(
    counts: Seq<u32>,
    lower: Seq<S>,
    n_lower: int,
    mix: M,
    a: Seq<S>,
    b: Seq<S>,
)
    requires
        forall|c: u32, n: u64, t: u32, p: S, u: S, v: S| #[trigger]
            call_ensures(mix, (c, n, t, p), u) && #[trigger] call_ensures(mix, (c, n, t, p), v)
                ==> u == v,
        markov::is_smoothed_level(counts, lower, n_lower, mix, a),
        markov::is_smoothed_level(counts, lower, n_lower, mix, b),
    ensures
        a == b,
{
    assert forall|x: int| 0 <= x < a.len() implies a[x] == b[x] by {
        assert(markov::is_smoothed_cell(counts, lower, n_lower, mix, x, a[x]));
        assert(markov::is_smoothed_cell(counts, lower, n_lower, mix, x, b[x]));
    }
    assert(a =~= b);
}

/// Equal counts make equal tables.
proof fn lemma_same_table<
    S,
    B: Fn(u32, u64) -> S,
    M: Fn(u32, u64, u32, S) -> S,
    L: Fn(S) -> S,
>(k: markov::Counts, l: markov::Counts, base: B, mix: M, finish: L, a: Seq<S>, b: Seq<S>)
    requires
        is_arithmetic(base, mix, finish),
        k.c0@ == l.c0@,
        k.c1@ == l.c1@,
        k.c2@ == l.c2@,
        k.c3@ == l.c3@,
        markov::is_table(k, base, mix, finish, a),
        markov::is_table(l, base, mix, finish, b),
    ensures
        a == b,
{
    let (p0, p1, p2, p3) = choose|p0: Seq<S>, p1: Seq<S>, p2: Seq<S>, p3: Seq<S>|
        {
            &&& #[trigger] markov::is_base_level(k.c0@, base, p0)
            &&& #[trigger] markov::is_smoothed_level(k.c1@, p0, 1, mix, p1)
            &&& #[trigger] markov::is_smoothed_level(k.c2@, p1, markov::N1 as int, mix, p2)
            &&& #[trigger] markov::is_smoothed_level(k.c3@, p2, markov::N2 as int, mix, p3)
            &&& a.len() == p3.len()
            &&& forall|x: int|
                0 <= x < a.len() ==> call_ensures(finish, (p3[x],), #[trigger] a[x])
        };
    let (q0, q1, q2, q3) = choose|q0: Seq<S>, q1: Seq<S>, q2: Seq<S>, q3: Seq<S>|
        {
            &&& #[trigger] markov::is_base_level(l.c0@, base, q0)
            &&& #[trigger] markov::is_smoothed_level(l.c1@, q0, 1, mix, q1)
            &&& #[trigger] markov::is_smoothed_level(l.c2@, q1, markov::N1 as int, mix, q2)
            &&& #[trigger] markov::is_smoothed_level(l.c3@, q2, markov::N2 as int, mix, q3)
            &&& b.len() == q3.len()
            &&& forall|x: int|
                0 <= x < b.len() ==> call_ensures(finish, (q3[x],), #[trigger] b[x])
        };
    assert forall|x: int| 0 <= x < p0.len() implies p0[x] == q0[x] by {
        assert(call_ensures(base, (k.c0@[x], markov::mass(k.c0@) as u64), p0[x]));
        assert(call_ensures(base, (l.c0@[x], markov::mass(l.c0@) as u64), q0[x]));
    }
    assert(p0 =~= q0);
    lemma_same_level(k.c1@, p0, 1, mix, p1, q1);
    lemma_same_level(k.c2@, p1, markov::N1 as int, mix, p2, q2);
    lemma_same_level(k.c3@, p2, markov::N2 as int, mix, p3, q3);
    assert forall|x: int| 0 <= x < a.len() implies a[x] == b[x] by {
        assert(call_ensures(finish, (p3[x],), a[x]));
        assert(call_ensures(finish, (q3[x],), b[x]));
    }
    assert(a =~= b);
}

/// The order of the corpus does not matter: models trained on the same words, each
/// as often, have the same table, whatever the order of the words. The arithmetic
/// must have one result for given arguments.
pub proof fn training_ignores_the_order<
    S,
    B: Fn(u32, u64) -> S,
    M: Fn(u32, u64, u32, S) -> S,
    L: Fn(S) -> S,
>(v: Seq<String>, w: Seq<String>, base: B, mix: M, finish: L, a: Seq<S>, b: Seq<S>)
    requires
        text::texts(v).to_multiset() == text::texts(w).to_multiset(),
        is_arithmetic(base, mix, finish),
        markov::is_trained(v, base, mix, finish, a),
        markov::is_trained(w, base, mix, finish, b),
    ensures
        a == b,
{
    let k = choose|k: markov::Counts|
        k.wf() && #[trigger] k.counts_of(v) && markov::is_table(k, base, mix, finish, a);
    let l = choose|l: markov::Counts|
        l.wf() && #[trigger] l.counts_of(w) && markov::is_table(l, base, mix, finish, b);
    assert forall|n: nat|
        markov::corpus_grams(v, n).to_multiset() == #[trigger] markov::corpus_grams(
            w,
            n,
        ).to_multiset() by {
        lemma_grams(v, n);
        lemma_grams(w, n);
        lemma_grams_in_any_order(text::texts(v), text::texts(w), n);
    }
    lemma_same_tallies(k.c0@, l.c0@, markov::corpus_grams(v, 0), markov::corpus_grams(w, 0));
    lemma_same_tallies(k.c1@, l.c1@, markov::corpus_grams(v, 1), markov::corpus_grams(w, 1));
    lemma_same_tallies(k.c2@, l.c2@, markov::corpus_grams(v, 2), markov::corpus_grams(w, 2));
    lemma_same_tallies(k.c3@, l.c3@, markov::corpus_grams(v, 3), markov::corpus_grams(w, 3));
    lemma_same_table(k, l, base, mix, finish, a, b);
}

/// The transitions of a corpus are as many as its words have bytes, and one more for
/// every word.
pub proof fn transitions_are_bytes_and_ends(a: Seq<Seq<char>>, b: Seq<Seq<char>>, w: Seq<char>)
    ensures
        transitions_in(Seq::empty()) == 0,
        transitions_in(seq![w]) == encode_utf8(w).len() + 1,
        transitions_in(a + b) == transitions_in(a) + transitions_in(b),
    decreases b.len(),
{
    reveal_with_fuel(transitions_in, 2);
    assert(seq![w].drop_last() =~= Seq::<Seq<char>>::empty());
    if b.len() == 0 {
        assert(a + b =~= a);
    } else {
        transitions_are_bytes_and_ends(a, b.drop_last(), w);
        assert((a + b).drop_last() =~= a + b.drop_last());
    }
}

} // verus!
