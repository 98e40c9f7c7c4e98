//! Structural filter: a name is retained only if it splits cleanly into
//! (onset)(nucleus)(coda) syllables.
//!
//! The Markov model knows that a letter sequence "looks like" the corpus, but
//! allows unpronounceable consonant clusters if the corpus contains any trace of
//! them. This segmentation enforces pronounceability by construction: if there
//! is no valid segmentation, the name is rejected regardless of its score.

use vstd::prelude::*;

verus! {

/// Longest onset.
pub const MAX_ONSET: usize = 3;

/// Longest nucleus.
pub const MAX_NUCLEUS: usize = 2;

/// Longest coda.
pub const MAX_CODA: usize = 2;

/// A letter that counts as a vowel.
pub open spec fn is_vowel(b: u8) -> bool {
    match b as char {
        'a' | 'e' | 'i' | 'o' | 'u' | 'y' => true,
        _ => false,
    }
}

/// Onsets: a single consonant or a cluster attested at the start of a syllable.
/// `qu` consumes both letters; the nucleus follows (qui-ver).
pub open spec fn is_onset(s: Seq<u8>) -> bool {
    if s.len() == 1 {
        match s[0] as char {
            'b' | 'c' | 'd' | 'f' | 'g' | 'h' | 'j' | 'k' | 'l' | 'm' | 'n' | 'p' | 'r' | 's'
            | 't' | 'v' | 'w' | 'x' | 'y' | 'z' => true,
            _ => false,
        }
    } else if s.len() == 2 {
        match (s[0] as char, s[1] as char) {
            ('b', 'l' | 'r') => true,
            ('c', 'h' | 'l' | 'r') => true,
            ('d', 'r') => true,
            ('f', 'l' | 'r') => true,
            ('g', 'l' | 'r') => true,
            ('k', 'l' | 'r') => true,
            ('p', 'h' | 'l' | 'r') => true,
            ('q', 'u') => true,
            ('s', 'c' | 'h' | 'k' | 'l' | 'm' | 'n' | 'p' | 't' | 'w') => true,
            ('t', 'h' | 'r' | 'w') => true,
            ('v', 'r') => true,
            ('w', 'h' | 'r') => true,
            _ => false,
        }
    } else if s.len() == 3 {
        match (s[0] as char, s[1] as char, s[2] as char) {
            ('s', 'c' | 'h' | 't', 'r') => true,
            ('s', 'p', 'l' | 'r') => true,
            ('t', 'h', 'r') => true,
            _ => false,
        }
    } else {
        false
    }
}

/// Nuclei: a single vowel or a common vowel digraph.
pub open spec fn is_nucleus(s: Seq<u8>) -> bool {
    if s.len() == 1 {
        is_vowel(s[0])
    } else if s.len() == 2 {
        match (s[0] as char, s[1] as char) {
            ('a', 'i' | 'u' | 'w' | 'y') => true,
            ('e', 'a' | 'e' | 'i' | 'o' | 'u' | 'w' | 'y') => true,
            ('i', 'a' | 'e' | 'o' | 'u') => true,
            ('o', 'a' | 'e' | 'i' | 'o' | 'u' | 'w' | 'y') => true,
            ('u', 'a' | 'e' | 'i' | 'o') => true,
            ('y', 'a' | 'e' | 'o' | 'u') => true,
            _ => false,
        }
    } else {
        false
    }
}

/// Codas: empty, a single consonant, or a cluster attested at a syllable ending.
pub open spec fn is_coda(s: Seq<u8>) -> bool {
    if s.len() == 0 {
        true
    } else if s.len() == 1 {
        match s[0] as char {
            'b' | 'c' | 'd' | 'f' | 'g' | 'k' | 'l' | 'm' | 'n' | 'p' | 'r' | 's' | 't' | 'v'
            | 'x' | 'z' => true,
            _ => false,
        }
    } else if s.len() == 2 {
        match (s[0] as char, s[1] as char) {
            ('c', 'k' | 't') => true,
            ('f', 'f' | 't') => true,
            ('g', 'h') => true,
            ('l', 'd' | 'f' | 'k' | 'm' | 'p' | 't' | 'l') => true,
            ('m', 'b' | 'p') => true,
            ('n', 'd' | 'g' | 'k' | 's' | 't') => true,
            ('p', 't') => true,
            ('r', 'b' | 'd' | 'k' | 'l' | 'm' | 'n' | 'p' | 's' | 't') => true,
            ('s', 'h' | 'k' | 'p' | 's' | 't') => true,
            ('t', 'h' | 't') => true,
            ('z', 'z') => true,
            _ => false,
        }
    } else {
        false
    }
}

/// `s` splits into an onset of `a` bytes, a nucleus that ends at `b`, and a coda.
///
/// An empty onset is allowed only at the start of a word; elsewhere it would
/// create a hard-to-pronounce hiatus between two nuclei.
pub open spec fn splits_at(s: Seq<u8>, first: bool, a: int, b: int) -> bool {
    &&& 0 <= a <= b <= s.len()
    &&& is_onset(s.subrange(0, a)) || (first && a == 0)
    &&& is_nucleus(s.subrange(a, b))
    &&& is_coda(s.subrange(b, s.len() as int))
}

/// `s` is a syllable; `first` tells whether it opens the word.
pub open spec fn is_syllable(s: Seq<u8>, first: bool) -> bool {
    exists|a: int, b: int| splits_at(s, first, a, b)
}

/// The bytes of `w` between cut `i` and the next one are a syllable.
pub open spec fn is_piece(w: Seq<u8>, cuts: Seq<int>, i: int) -> bool {
    &&& 0 <= cuts[i] <= cuts[i + 1] <= w.len()
    &&& is_syllable(w.subrange(cuts[i], cuts[i + 1]), i == 0)
}

/// `cuts` are the positions, from the start of `w` to its end, that separate it
/// into `k` syllables.
pub open spec fn is_segmentation(w: Seq<u8>, cuts: Seq<int>, k: nat) -> bool {
    &&& cuts.len() == k + 1
    &&& cuts[0] == 0
    &&& cuts[k as int] == w.len()
    &&& forall|i: int| 0 <= i < k ==> #[trigger] is_piece(w, cuts, i)
}

/// `w` can be cut into exactly `k` syllables.
pub open spec fn has_syllables(w: Seq<u8>, k: nat) -> bool {
    exists|cuts: Seq<int>| is_segmentation(w, cuts, k)
}

/// `w` can be cut into at least `min_syl` and at most `max_syl` syllables.
pub open spec fn in_syllable_range(w: Seq<u8>, min_syl: nat, max_syl: nat) -> bool {
    exists|k: nat| min_syl <= k <= max_syl && #[trigger] has_syllables(w, k)
}

/// The first `p` bytes of `w` can be cut into exactly `k` syllables, read from
/// the last syllable backwards.
spec fn reaches(w: Seq<u8>, p: int, k: nat) -> bool
    decreases k,
{
    if k == 0 {
        p == 0
    } else {
        exists|q: int| #[trigger] step(w, q, p) && reaches(w, q, (k - 1) as nat)
    }
}

/// The bytes of `w` from `q` to `p` are a syllable.
spec fn step(w: Seq<u8>, q: int, p: int) -> bool {
    0 <= q < p <= w.len() && is_syllable(w.subrange(q, p), q == 0)
}

proof fn lemma_syllable_not_empty(s: Seq<u8>, first: bool)
    requires
        is_syllable(s, first),
    ensures
        1 <= s.len() <= MAX_ONSET + MAX_NUCLEUS + MAX_CODA,
{
    let (a, b) = choose|a: int, b: int| splits_at(s, first, a, b);
    assert(s.subrange(0, a).len() == a);
    assert(s.subrange(a, b).len() == b - a);
    assert(s.subrange(b, s.len() as int).len() == s.len() - b);
}

/// The cuts never go backwards, and only the first of them is zero.
proof fn lemma_cuts_increase(w: Seq<u8>, cuts: Seq<int>, k: nat, i: int)
    requires
        is_segmentation(w, cuts, k),
        0 <= i <= k,
    ensures
        0 <= cuts[i] <= w.len(),
        i < k ==> cuts[i] <= cuts[k - 1],
    decreases k - i,
{
    if i < k {
        assert(is_piece(w, cuts, i));
        lemma_cuts_increase(w, cuts, k, i + 1);
    }
}

/// Only the first cut is at the start of the word.
proof fn lemma_later_cuts_positive(w: Seq<u8>, cuts: Seq<int>, k: nat, i: int)
    requires
        is_segmentation(w, cuts, k),
        1 <= i <= k,
    ensures
        cuts[i] > 0,
    decreases i,
{
    assert(is_piece(w, cuts, i - 1));
    lemma_syllable_not_empty(w.subrange(cuts[i - 1], cuts[i - 1 + 1]), i - 1 == 0);
}

/// A prefix whose end is reached in `k` syllables can be cut into them.
proof fn lemma_reaches_gives_cuts(w: Seq<u8>, p: int, k: nat)
    requires
        0 <= p <= w.len(),
        reaches(w, p, k),
    ensures
        has_syllables(w.take(p), k),
    decreases k,
{
    let v = w.take(p);
    if k == 0 {
        assert(is_segmentation(v, seq![0int], 0));
    } else {
        let k1 = (k - 1) as nat;
        let q = choose|q: int| #[trigger] step(w, q, p) && reaches(w, q, k1);
        lemma_reaches_gives_cuts(w, q, k1);
        let u = w.take(q);
        let cuts = choose|cuts: Seq<int>| is_segmentation(u, cuts, k1);
        let more = cuts.push(p);
        assert forall|i: int| 0 <= i < k implies #[trigger] is_piece(v, more, i) by {
            if i < k1 {
                assert(is_piece(u, cuts, i));
                assert(u.subrange(cuts[i], cuts[i + 1]) =~= v.subrange(cuts[i], cuts[i + 1]));
            } else {
                assert(w.subrange(q, p) =~= v.subrange(q, p));
                if i > 0 {
                    lemma_later_cuts_positive(u, cuts, k1, k1 as int);
                }
            }
        }
        assert(is_segmentation(v, more, k));
    }
}

/// A prefix that can be cut into `k` syllables is reached by them.
proof fn lemma_cuts_give_reaches(w: Seq<u8>, p: int, k: nat)
    requires
        0 <= p <= w.len(),
        has_syllables(w.take(p), k),
    ensures
        reaches(w, p, k),
    decreases k,
{
    let v = w.take(p);
    let cuts = choose|cuts: Seq<int>| is_segmentation(v, cuts, k);
    if k > 0 {
        let k1 = (k - 1) as nat;
        let q = cuts[k1 as int];
        assert(is_piece(v, cuts, k1 as int));
        lemma_syllable_not_empty(v.subrange(q, p), k1 == 0);
        let u = w.take(q);
        let fewer = cuts.drop_last();
        assert forall|i: int| 0 <= i < k1 implies #[trigger] is_piece(u, fewer, i) by {
            assert(is_piece(v, cuts, i));
            lemma_cuts_increase(v, cuts, k, i + 1);
            assert(u.subrange(cuts[i], cuts[i + 1]) =~= v.subrange(cuts[i], cuts[i + 1]));
        }
        assert(is_segmentation(u, fewer, k1));
        lemma_cuts_give_reaches(w, q, k1);
        assert(w.subrange(q, p) =~= v.subrange(q, p));
        if k1 > 0 {
            lemma_later_cuts_positive(v, cuts, k, k1 as int);
        }
        assert(step(w, q, p));
    }
}

/// Like `reaches`, with the last syllable starting before `limit`.
spec fn reaches_before(w: Seq<u8>, p: int, k: int, limit: int) -> bool {
    if k == 0 {
        p == 0
    } else {
        exists|q: int| q < limit && #[trigger] step(w, q, p) && reaches(w, q, (k - 1) as nat)
    }
}

/// Letting the last syllable start one byte later adds those that start there.
proof fn lemma_limit_step(w: Seq<u8>, p: int, k: int, limit: int)
    requires
        k >= 0,
    ensures
        reaches_before(w, p, k, limit + 1) <==> reaches_before(w, p, k, limit) || (k > 0 && step(
            w,
            limit,
            p,
        ) && reaches(w, limit, (k - 1) as nat)),
{
}

/// No syllable ends where it starts, so the start is the only limit that counts.
proof fn lemma_limit_end(w: Seq<u8>, p: int, k: int, limit: int)
    requires
        k >= 0,
        limit >= p,
    ensures
        reaches_before(w, p, k, limit) == reaches(w, p, k as nat),
{
    if k > 0 && reaches(w, p, k as nat) {
        let q = choose|q: int| #[trigger] step(w, q, p) && reaches(w, q, (k - 1) as nat);
        assert(q < limit);
    }
}

/// Every syllable takes at least one byte.
proof fn lemma_count_fits(w: Seq<u8>, p: int, k: nat)
    requires
        reaches(w, p, k),
    ensures
        k <= p,
    decreases k,
{
    if k > 0 {
        let q = choose|q: int| #[trigger] step(w, q, p) && reaches(w, q, (k - 1) as nat);
        lemma_count_fits(w, q, (k - 1) as nat);
    }
}

fn is_vowel_byte(b: u8) -> (r: bool)
    ensures
        r == is_vowel(b),
{
    match b as char {
        'a' | 'e' | 'i' | 'o' | 'u' | 'y' => true,
        _ => false,
    }
}

/// Tells whether the bytes of `w` from `p` to `q` are an onset.
fn onset_at(w: &[u8], p: usize, q: usize) -> (r: bool)
    requires
        p <= q <= w@.len(),
    ensures
        r == is_onset(w@.subrange(p as int, q as int)),
{
    if q - p == 1 {
        match w[p] as char {
            'b' | 'c' | 'd' | 'f' | 'g' | 'h' | 'j' | 'k' | 'l' | 'm' | 'n' | 'p' | 'r' | 's'
            | 't' | 'v' | 'w' | 'x' | 'y' | 'z' => true,
            _ => false,
        }
    } else if q - p == 2 {
        match (w[p] as char, w[p + 1] as char) {
            ('b', 'l' | 'r') => true,
            ('c', 'h' | 'l' | 'r') => true,
            ('d', 'r') => true,
            ('f', 'l' | 'r') => true,
            ('g', 'l' | 'r') => true,
            ('k', 'l' | 'r') => true,
            ('p', 'h' | 'l' | 'r') => true,
            ('q', 'u') => true,
            ('s', 'c' | 'h' | 'k' | 'l' | 'm' | 'n' | 'p' | 't' | 'w') => true,
            ('t', 'h' | 'r' | 'w') => true,
            ('v', 'r') => true,
            ('w', 'h' | 'r') => true,
            _ => false,
        }
    } else if q - p == 3 {
        match (w[p] as char, w[p + 1] as char, w[p + 2] as char) {
            ('s', 'c' | 'h' | 't', 'r') => true,
            ('s', 'p', 'l' | 'r') => true,
            ('t', 'h', 'r') => true,
            _ => false,
        }
    } else {
        false
    }
}

/// Tells whether the bytes of `w` from `p` to `q` are a nucleus.
fn nucleus_at(w: &[u8], p: usize, q: usize) -> (r: bool)
    requires
        p <= q <= w@.len(),
    ensures
        r == is_nucleus(w@.subrange(p as int, q as int)),
{
    if q - p == 1 {
        is_vowel_byte(w[p])
    } else if q - p == 2 {
        match (w[p] as char, w[p + 1] as char) {
            ('a', 'i' | 'u' | 'w' | 'y') => true,
            ('e', 'a' | 'e' | 'i' | 'o' | 'u' | 'w' | 'y') => true,
            ('i', 'a' | 'e' | 'o' | 'u') => true,
            ('o', 'a' | 'e' | 'i' | 'o' | 'u' | 'w' | 'y') => true,
            ('u', 'a' | 'e' | 'i' | 'o') => true,
            ('y', 'a' | 'e' | 'o' | 'u') => true,
            _ => false,
        }
    } else {
        false
    }
}

/// Tells whether the bytes of `w` from `p` to `q` are a coda.
fn coda_at(w: &[u8], p: usize, q: usize) -> (r: bool)
    requires
        p <= q <= w@.len(),
    ensures
        r == is_coda(w@.subrange(p as int, q as int)),
{
    if q == p {
        true
    } else if q - p == 1 {
        match w[p] as char {
            'b' | 'c' | 'd' | 'f' | 'g' | 'k' | 'l' | 'm' | 'n' | 'p' | 'r' | 's' | 't' | 'v'
            | 'x' | 'z' => true,
            _ => false,
        }
    } else if q - p == 2 {
        match (w[p] as char, w[p + 1] as char) {
            ('c', 'k' | 't') => true,
            ('f', 'f' | 't') => true,
            ('g', 'h') => true,
            ('l', 'd' | 'f' | 'k' | 'm' | 'p' | 't' | 'l') => true,
            ('m', 'b' | 'p') => true,
            ('n', 'd' | 'g' | 'k' | 's' | 't') => true,
            ('p', 't') => true,
            ('r', 'b' | 'd' | 'k' | 'l' | 'm' | 'n' | 'p' | 's' | 't') => true,
            ('s', 'h' | 'k' | 'p' | 's' | 't') => true,
            ('t', 'h' | 't') => true,
            ('z', 'z') => true,
            _ => false,
        }
    } else {
        false
    }
}

/// Tells whether the bytes of `w` from `q` to `p` are a syllable.
fn syllable_at(w: &[u8], q: usize, p: usize) -> (r: bool)
    requires
        q <= p <= w@.len(),
    ensures
        r == is_syllable(w@.subrange(q as int, p as int), q == 0),
{
    let ghost s = w@.subrange(q as int, p as int);
    let ghost first = q == 0;
    for a in 0..MAX_ONSET + 1
        invariant
            q <= p <= w@.len(),
            s == w@.subrange(q as int, p as int),
            first == (q == 0),
            forall|x: int, y: int| 0 <= x < a ==> !splits_at(s, first, x, y),
    {
        for n in 0..MAX_NUCLEUS + 1
            invariant
                q <= p <= w@.len(),
                0 <= a <= MAX_ONSET,
                s == w@.subrange(q as int, p as int),
                first == (q == 0),
                forall|x: int, y: int| 0 <= x < a ==> !splits_at(s, first, x, y),
                forall|y: int| a <= y < a + n ==> !splits_at(s, first, a as int, y),
        {
            if a + n <= p - q {
                let b: usize = q + a + n;
                proof {
                    assert(s.subrange(0, a as int) =~= w@.subrange(q as int, q + a));
                    assert(s.subrange(a as int, a + n) =~= w@.subrange(q + a, b as int));
                    assert(s.subrange(a + n, s.len() as int) =~= w@.subrange(b as int, p as int));
                }
                if (onset_at(w, q, q + a) || (q == 0 && a == 0)) && nucleus_at(w, q + a, b)
                    && coda_at(w, b, p) {
                    assert(splits_at(s, first, a as int, a + n));
                    return true;
                }
            }
        }
        assert forall|x: int, y: int| 0 <= x < a + 1 implies !splits_at(s, first, x, y) by {
            if x == a && splits_at(s, first, x, y) {
                assert(s.subrange(x, y).len() == y - x);
            }
        }
    }
    assert forall|x: int, y: int| !splits_at(s, first, x, y) by {
        if splits_at(s, first, x, y) {
            assert(s.subrange(0, x).len() == x);
        }
    }
    false
}

/// `row` tells of every syllable count up to `n` whether it reaches position `p`
/// with a last syllable that starts before `limit`.
spec fn is_row(row: Seq<bool>, w: Seq<u8>, p: int, n: int, limit: int) -> bool {
    &&& row.len() == n + 1
    &&& forall|k: int| 0 <= k <= n ==> #[trigger] row[k] == reaches_before(w, p, k, limit)
}

/// The syllable counts that reach position `p`, given those that reach the
/// positions before it.
fn row_at(w: &[u8], p: usize, reach: &Vec<Vec<bool>>) -> (row: Vec<bool>)
    requires
        p <= w@.len(),
        reach@.len() == p,
        forall|q: int| 0 <= q < p ==> is_row((#[trigger] reach@[q])@, w@, q, w@.len() as int, q),
    ensures
        is_row(row@, w@, p as int, w@.len() as int, p as int),
{
    let n = w.len();
    let mut row: Vec<bool> = Vec::new();
    row.push(p == 0);  // zero syllables reach position 0 only
    for k in 0..n
        invariant
            row@.len() == k + 1,
            row@[0] == (p == 0),
            forall|j: int| 1 <= j <= k ==> !#[trigger] row@[j],
    {
        row.push(false);
    }
    for q in 0..p
        invariant
            n == w@.len(),
            p <= n,
            reach@.len() == p,
            forall|x: int|
                0 <= x < p ==> is_row((#[trigger] reach@[x])@, w@, x, w@.len() as int, x),
            is_row(row@, w@, p as int, n as int, q as int),
    {
        let ghost before = row@;
        let is_step = syllable_at(w, q, p);
        assert(is_step == step(w@, q as int, p as int));
        if is_step {
            for k in 0..n
                invariant
                    n == w@.len(),
                    q < p <= n,
                    reach@.len() == p,
                    is_row(reach@[q as int]@, w@, q as int, n as int, q as int),
                    is_row(before, w@, p as int, n as int, q as int),
                    step(w@, q as int, p as int),
                    row@.len() == n + 1,
                    forall|j: int|
                        0 <= j <= k ==> #[trigger] row@[j] == reaches_before(
                            w@,
                            p as int,
                            j,
                            q + 1,
                        ),
                    forall|j: int| k < j <= n ==> #[trigger] row@[j] == before[j],
            {
                proof {
                    lemma_limit_step(w@, p as int, k + 1, q as int);
                    lemma_limit_end(w@, q as int, k as int, q as int);
                    assert(before[k + 1] == reaches_before(w@, p as int, k + 1, q as int));
                }
                if reach[q][k] {
                    row.set(k + 1, true);
                }
            }
        } else {
            assert forall|k: int| 0 <= k <= n implies #[trigger] row@[k] == reaches_before(
                w@,
                p as int,
                k,
                q + 1,
            ) by {
                lemma_limit_step(w@, p as int, k, q as int);
            }
        }
    }
    row
}

/// Returns true when `w` has at least one segmentation into
/// `min_syl..=max_syl` syllables.
pub fn is_pronounceable(w: &[u8], min_syl: usize, max_syl: usize) -> (r: bool)
    ensures
        r == in_syllable_range(w@, min_syl as nat, max_syl as nat),
{
    let n = w.len();
    // reach[p]: the syllable counts that can reach position p. A simple boolean is
    // insufficient because the final count must be constrained.
    let mut reach: Vec<Vec<bool>> = Vec::new();
    for p in 0..n
        invariant
            n == w@.len(),
            reach@.len() == p,
            forall|q: int|
                0 <= q < p ==> is_row((#[trigger] reach@[q])@, w@, q, w@.len() as int, q),
    {
        let row = row_at(w, p, &reach);
        reach.push(row);
    }
    let last = row_at(w, n, &reach);
    assert(w@.take(n as int) =~= w@);
    let mut s: usize = min_syl;
    while s <= max_syl && s <= n
        invariant
            n == w@.len(),
            n < last.len(),
            w@.take(n as int) == w@,
            is_row(last@, w@, n as int, n as int, n as int),
            min_syl <= s,
            forall|k: nat| min_syl <= k < s ==> !#[trigger] has_syllables(w@, k),
        decreases n + 1 - s,
    {
        proof {
            lemma_limit_end(w@, n as int, s as int, n as int);
            assert(last@[s as int] == reaches(w@, n as int, s as nat));
        }
        if last[s] {
            proof {
                lemma_reaches_gives_cuts(w@, n as int, s as nat);
            }
            return true;
        }
        proof {
            if has_syllables(w@, s as nat) {
                lemma_cuts_give_reaches(w@, n as int, s as nat);
            }
        }
        s = s + 1;
    }
    assert forall|k: nat| min_syl <= k <= max_syl implies !#[trigger] has_syllables(w@, k) by {
        if has_syllables(w@, k) {
            lemma_cuts_give_reaches(w@, n as int, k);
            lemma_count_fits(w@, n as int, k);
        }
    }
    false
}

/// Number of vowels in a word.
pub open spec fn vowel_count(w: Seq<u8>) -> nat {
    w.filter(|b: u8| is_vowel(b)).len()
}

/// The four bytes from `i` on are all consonants.
pub open spec fn four_consonants_at(w: Seq<u8>, i: int) -> bool {
    &&& 0 <= i
    &&& i + 4 <= w.len()
    &&& !is_vowel(w[i])
    &&& !is_vowel(w[i + 1])
    &&& !is_vowel(w[i + 2])
    &&& !is_vowel(w[i + 3])
}

/// The three bytes from `i` on are the same.
pub open spec fn triple_at(w: Seq<u8>, i: int) -> bool {
    &&& 0 <= i
    &&& i + 3 <= w.len()
    &&& w[i] == w[i + 1]
    &&& w[i + 1] == w[i + 2]
}

/// Two to four vowels, never four consonants in a row, and no letter three
/// times in a row.
pub open spec fn is_plausible(w: Seq<u8>) -> bool {
    &&& 2 <= vowel_count(w) <= 4
    &&& forall|i: int| !#[trigger] four_consonants_at(w, i)
    &&& forall|i: int| !#[trigger] triple_at(w, i)
}

/// Near-zero-cost rejections applied before segmentation.
pub fn plausible(w: &[u8]) -> (r: bool)
    ensures
        r == is_plausible(w@),
{
    let mut vowels: usize = 0;
    let mut run_consonant: usize = 0;
    let mut prev: Option<u8> = None;
    let mut repeat: usize = 1;
    let ghost keep = |b: u8| is_vowel(b);
    for i in 0..w.len()
        invariant
            keep == (|b: u8| is_vowel(b)),
            vowels == w@.take(i as int).filter(keep).len(),
            vowels <= i,
            run_consonant <= 3,
            run_consonant <= i,
            forall|j: int| i - run_consonant <= j < i ==> !is_vowel(#[trigger] w@[j]),
            run_consonant < i ==> is_vowel(w@[i - run_consonant - 1]),
            forall|j: int| j + 4 <= i ==> !#[trigger] four_consonants_at(w@, j),
            prev == (if i == 0 {
                None
            } else {
                Some(w@[i - 1])
            }),
            1 <= repeat <= 2,
            repeat == 2 ==> i >= 2 && w@[i - 2] == w@[i - 1],
            repeat == 1 && i >= 2 ==> w@[i - 2] != w@[i - 1],
            forall|j: int| j + 3 <= i ==> !#[trigger] triple_at(w@, j),
    {
        let b: u8 = w[i];
        let ghost longer = w@.take(i + 1);
        proof {
            reveal(Seq::filter);
            assert(longer.drop_last() =~= w@.take(i as int));
            assert(longer.last() == b);
        }
        if is_vowel_byte(b) {
            vowels = vowels + 1;
            run_consonant = 0;
        } else {
            run_consonant = run_consonant + 1;
            if run_consonant > 3 {
                assert(four_consonants_at(w@, i - 3));
                return false;
            }
        }
        assert forall|j: int| j + 4 <= i + 1 implies !#[trigger] four_consonants_at(w@, j) by {
            if j + 4 == i + 1 && four_consonants_at(w@, j) {
                assert(run_consonant <= 3);
                let v = i + 1 - run_consonant - 1;
                assert(is_vowel(w@[v]));
                assert(v == j || v == j + 1 || v == j + 2 || v == j + 3);
            }
        }
        let again = match prev {
            Some(p) => p == b,
            None => false,
        };
        if again {
            repeat = repeat + 1;
            if repeat > 2 {
                assert(triple_at(w@, i - 2));
                return false;
            }
        } else {
            repeat = 1;
        }
        prev = Some(b);
    }
    assert(w@.take(w@.len() as int) =~= w@);
    2 <= vowels && vowels <= 4
}

// What the tables hold

/// `s` is the letter `a` alone.
pub open spec fn spells1(s: Seq<u8>, a: char) -> bool {
    s =~= seq![a as u8]
}

/// `s` is the letters `a` and `b`.
pub open spec fn spells2(s: Seq<u8>, a: char, b: char) -> bool {
    s =~= seq![a as u8, b as u8]
}

/// `s` is the letters `a`, `b` and `c`.
pub open spec fn spells3(s: Seq<u8>, a: char, b: char, c: char) -> bool {
    s =~= seq![a as u8, b as u8, c as u8]
}

/// The onsets, one by one: each of these is one, and nothing else is.
pub proof fn the_onsets(s: Seq<u8>)
    ensures
        is_onset(s) <==> (
            spells1(s, 'b') || spells1(s, 'c') || spells1(s, 'd') || spells1(s, 'f')
            || spells1(s, 'g') || spells1(s, 'h') || spells1(s, 'j') || spells1(s, 'k')
            || spells1(s, 'l') || spells1(s, 'm') || spells1(s, 'n') || spells1(s, 'p')
            || spells1(s, 'r') || spells1(s, 's') || spells1(s, 't') || spells1(s, 'v')
            || spells1(s, 'w') || spells1(s, 'x') || spells1(s, 'y') || spells1(s, 'z')
            || spells2(s, 'b', 'l') || spells2(s, 'b', 'r') || spells2(s, 'c', 'h')
            || spells2(s, 'c', 'l') || spells2(s, 'c', 'r') || spells2(s, 'd', 'r')
            || spells2(s, 'f', 'l') || spells2(s, 'f', 'r') || spells2(s, 'g', 'l')
            || spells2(s, 'g', 'r') || spells2(s, 'k', 'l') || spells2(s, 'k', 'r')
            || spells2(s, 'p', 'h') || spells2(s, 'p', 'l') || spells2(s, 'p', 'r')
            || spells2(s, 'q', 'u') || spells2(s, 's', 'c') || spells2(s, 's', 'h')
            || spells2(s, 's', 'k') || spells2(s, 's', 'l') || spells2(s, 's', 'm')
            || spells2(s, 's', 'n') || spells2(s, 's', 'p') || spells2(s, 's', 't')
            || spells2(s, 's', 'w') || spells2(s, 't', 'h') || spells2(s, 't', 'r')
            || spells2(s, 't', 'w') || spells2(s, 'v', 'r') || spells2(s, 'w', 'h')
            || spells2(s, 'w', 'r') || spells3(s, 's', 'c', 'r') || spells3(s, 's', 'h', 'r')
            || spells3(s, 's', 'p', 'l') || spells3(s, 's', 'p', 'r') || spells3(s, 's', 't', 'r')
            || spells3(s, 't', 'h', 'r')
        ),
{
}

/// The nuclei, one by one: each of these is one, and nothing else is.
pub proof fn the_nuclei(s: Seq<u8>)
    ensures
        is_nucleus(s) <==> (
            spells1(s, 'a') || spells1(s, 'e') || spells1(s, 'i') || spells1(s, 'o')
            || spells1(s, 'u') || spells1(s, 'y') || spells2(s, 'a', 'i') || spells2(s, 'a', 'u')
            || spells2(s, 'a', 'w') || spells2(s, 'a', 'y') || spells2(s, 'e', 'a')
            || spells2(s, 'e', 'e') || spells2(s, 'e', 'i') || spells2(s, 'e', 'o')
            || spells2(s, 'e', 'u') || spells2(s, 'e', 'w') || spells2(s, 'e', 'y')
            || spells2(s, 'i', 'a') || spells2(s, 'i', 'e') || spells2(s, 'i', 'o')
            || spells2(s, 'i', 'u') || spells2(s, 'o', 'a') || spells2(s, 'o', 'e')
            || spells2(s, 'o', 'i') || spells2(s, 'o', 'o') || spells2(s, 'o', 'u')
            || spells2(s, 'o', 'w') || spells2(s, 'o', 'y') || spells2(s, 'u', 'a')
            || spells2(s, 'u', 'e') || spells2(s, 'u', 'i') || spells2(s, 'u', 'o')
            || spells2(s, 'y', 'a') || spells2(s, 'y', 'e') || spells2(s, 'y', 'o')
            || spells2(s, 'y', 'u')
        ),
{
}

/// The codas, one by one: the empty one and each of these is one, and nothing else
/// is.
pub proof fn the_codas(s: Seq<u8>)
    ensures
        is_coda(s) <==> (s.len() == 0
            || spells1(s, 'b') || spells1(s, 'c') || spells1(s, 'd') || spells1(s, 'f')
            || spells1(s, 'g') || spells1(s, 'k') || spells1(s, 'l') || spells1(s, 'm')
            || spells1(s, 'n') || spells1(s, 'p') || spells1(s, 'r') || spells1(s, 's')
            || spells1(s, 't') || spells1(s, 'v') || spells1(s, 'x') || spells1(s, 'z')
            || spells2(s, 'c', 'k') || spells2(s, 'c', 't') || spells2(s, 'f', 'f')
            || spells2(s, 'f', 't') || spells2(s, 'g', 'h') || spells2(s, 'l', 'd')
            || spells2(s, 'l', 'f') || spells2(s, 'l', 'k') || spells2(s, 'l', 'm')
            || spells2(s, 'l', 'p') || spells2(s, 'l', 't') || spells2(s, 'l', 'l')
            || spells2(s, 'm', 'b') || spells2(s, 'm', 'p') || spells2(s, 'n', 'd')
            || spells2(s, 'n', 'g') || spells2(s, 'n', 'k') || spells2(s, 'n', 's')
            || spells2(s, 'n', 't') || spells2(s, 'p', 't') || spells2(s, 'r', 'b')
            || spells2(s, 'r', 'd') || spells2(s, 'r', 'k') || spells2(s, 'r', 'l')
            || spells2(s, 'r', 'm') || spells2(s, 'r', 'n') || spells2(s, 'r', 'p')
            || spells2(s, 'r', 's') || spells2(s, 'r', 't') || spells2(s, 's', 'h')
            || spells2(s, 's', 'k') || spells2(s, 's', 'p') || spells2(s, 's', 's')
            || spells2(s, 's', 't') || spells2(s, 't', 'h') || spells2(s, 't', 't')
            || spells2(s, 'z', 'z')
        ),
{
}

/// The vowels that a plausible word is counted by are the nuclei of one letter.
pub proof fn vowels_are_nuclei_of_one_letter(b: u8)
    ensures
        is_vowel(b) <==> is_nucleus(seq![b]),
        is_vowel(b) <==> "aeiouy"@.contains(b as char),
{
    reveal_strlit("aeiouy");
    let v = "aeiouy"@;
    assert(v[0] == 'a' && v[1] == 'e' && v[2] == 'i' && v[3] == 'o' && v[4] == 'u' && v[5] == 'y');
}

/// A syllable in its three parts: onset, nucleus and coda.
pub type Parts = (Seq<u8>, Seq<u8>, Seq<u8>);

/// The syllables one after the other.
pub open spec fn spoken(parts: Seq<Parts>) -> Seq<u8>
    decreases parts.len(),
{
    if parts.len() == 0 {
        Seq::empty()
    } else {
        spoken(parts.drop_last()) + parts.last().0 + parts.last().1 + parts.last().2
    }
}

/// The parts at `i` are an onset, a nucleus and a coda. Only the first syllable may
/// do without an onset.
pub open spec fn are_parts(parts: Seq<Parts>, i: int) -> bool {
    &&& is_onset(parts[i].0) || (i == 0 && parts[i].0.len() == 0)
    &&& is_nucleus(parts[i].1)
    &&& is_coda(parts[i].2)
}

/// The syllables make up the word.
pub open spec fn make_up(parts: Seq<Parts>, w: Seq<u8>) -> bool {
    &&& spoken(parts) == w
    &&& forall|i: int| 0 <= i < parts.len() ==> #[trigger] are_parts(parts, i)
}

/// `last` are the parts of the syllable `s`.
#[verifier::opaque]
spec fn are_parts_of(last: Parts, s: Seq<u8>, first: bool) -> bool {
    &&& last.0 + last.1 + last.2 == s
    &&& is_onset(last.0) || (first && last.0.len() == 0)
    &&& is_nucleus(last.1)
    &&& is_coda(last.2)
}

proof fn lemma_syllable_has_parts(s: Seq<u8>, first: bool)
    requires
        is_syllable(s, first),
    ensures
        exists|last: Parts| #[trigger] are_parts_of(last, s, first),
{
    let (a, b) = choose|a: int, b: int| splits_at(s, first, a, b);
    let last = (s.subrange(0, a), s.subrange(a, b), s.subrange(b, s.len() as int));
    assert(last.0 + last.1 + last.2 =~= s);
    reveal(are_parts_of);
    assert(are_parts_of(last, s, first));
}

proof fn lemma_one_more_syllable(fewer: Seq<Parts>, v: Seq<u8>, last: Parts, s: Seq<u8>)
    requires
        make_up(fewer, v),
        are_parts_of(last, s, fewer.len() == 0),
    ensures
        make_up(fewer.push(last), v + s),
{
    reveal(are_parts_of);
    let parts = fewer.push(last);
    assert(parts.drop_last() =~= fewer);
    assert forall|i: int| 0 <= i < parts.len() implies #[trigger] are_parts(parts, i) by {
        if i < fewer.len() {
            assert(are_parts(fewer, i));
            assert(parts[i] == fewer[i]);
        }
    }
    assert(v + last.0 + last.1 + last.2 =~= v + s);
}

proof fn lemma_parts_of_a_prefix(w: Seq<u8>, p: int, k: nat)
    requires
        0 <= p <= w.len(),
        reaches(w, p, k),
    ensures
        exists|parts: Seq<Parts>| parts.len() == k && #[trigger] make_up(parts, w.take(p)),
    decreases k,
{
    if k == 0 {
        let none = Seq::<Parts>::empty();
        assert(w.take(0) =~= Seq::<u8>::empty());
        assert(make_up(none, w.take(p)));
    } else {
        let k1 = (k - 1) as nat;
        let q = choose|q: int| #[trigger] step(w, q, p) && reaches(w, q, k1);
        lemma_parts_of_a_prefix(w, q, k1);
        let fewer = choose|fewer: Seq<Parts>|
            fewer.len() == k1 && #[trigger] make_up(fewer, w.take(q));
        let s = w.subrange(q, p);
        let first = q == 0;
        lemma_syllable_has_parts(s, first);
        let last = choose|last: Parts| #[trigger] are_parts_of(last, s, first);
        lemma_count_fits(w, q, k1);
        assert(first == (k1 == 0));
        lemma_one_more_syllable(fewer, w.take(q), last, s);
        assert(w.take(q) + s =~= w.take(p));
        assert(make_up(fewer.push(last), w.take(p)));
    }
}

proof fn lemma_last_syllable(parts: Seq<Parts>)
    requires
        parts.len() > 0,
        are_parts(parts, parts.len() - 1),
    ensures
        are_parts_of(
            parts.last(),
            parts.last().0 + parts.last().1 + parts.last().2,
            parts.len() == 1,
        ),
{
    reveal(are_parts_of);
}

proof fn lemma_parts_make_a_syllable(last: Parts, s: Seq<u8>, first: bool)
    requires
        are_parts_of(last, s, first),
    ensures
        is_syllable(s, first),
        s.len() > 0,
{
    reveal(are_parts_of);
    let a = last.0.len() as int;
    let b = a + last.1.len();
    assert(s.subrange(0, a) =~= last.0);
    assert(s.subrange(a, b) =~= last.1);
    assert(s.subrange(b, s.len() as int) =~= last.2);
    assert(splits_at(s, first, a, b));
    lemma_syllable_not_empty(s, first);
}

proof fn lemma_prefix_of_parts(w: Seq<u8>, p: int, parts: Seq<Parts>)
    requires
        0 <= p <= w.len(),
        make_up(parts, w.take(p)),
    ensures
        reaches(w, p, parts.len()),
    decreases parts.len(),
{
    if parts.len() == 0 {
        assert(w.take(p).len() == 0);
    } else {
        let n = parts.len() - 1;
        let fewer = parts.drop_last();
        let last = parts[n];
        let s = last.0 + last.1 + last.2;
        let q = spoken(fewer).len() as int;
        assert(are_parts(parts, n));
        lemma_last_syllable(parts);
        lemma_parts_make_a_syllable(last, s, n == 0);
        assert(w.take(p) =~= spoken(fewer) + s);
        assert(w.take(q) =~= w.take(p).take(q));
        assert(w.take(p).take(q) =~= spoken(fewer));
        assert(w.subrange(q, p) =~= w.take(p).skip(q));
        assert(w.take(p).skip(q) =~= s);
        assert(make_up(fewer, w.take(q))) by {
            assert forall|i: int| 0 <= i < fewer.len() implies #[trigger] are_parts(fewer, i) by {
                assert(are_parts(parts, i));
                assert(fewer[i] == parts[i]);
            }
        }
        lemma_prefix_of_parts(w, q, fewer);
        lemma_count_fits(w, q, n as nat);
        if n == 0 {
            assert(spoken(fewer).len() == 0);
        }
        assert((n == 0) == (q == 0));
        assert(step(w, q, p));
    }
}

/// A word is pronounceable exactly when it is a row of syllables, at least
/// `min_syl` and at most `max_syl` of them, each an onset, a nucleus and a coda in
/// a row, where only the first one may do without an onset.
pub proof fn pronounceable_words_are_rows_of_syllables(w: Seq<u8>, min_syl: nat, max_syl: nat)
    ensures
        in_syllable_range(w, min_syl, max_syl) <==> exists|parts: Seq<Parts>|
            min_syl <= parts.len() <= max_syl && #[trigger] make_up(parts, w),
{
    let n = w.len() as int;
    assert(w.take(n) =~= w);
    if in_syllable_range(w, min_syl, max_syl) {
        let k = choose|k: nat| min_syl <= k <= max_syl && #[trigger] has_syllables(w, k);
        lemma_cuts_give_reaches(w, n, k);
        lemma_parts_of_a_prefix(w, n, k);
    }
    if exists|parts: Seq<Parts>| min_syl <= parts.len() <= max_syl && #[trigger] make_up(parts, w) {
        let parts = choose|parts: Seq<Parts>|
            min_syl <= parts.len() <= max_syl && #[trigger] make_up(parts, w);
        lemma_prefix_of_parts(w, n, parts);
        lemma_reaches_gives_cuts(w, n, parts.len());
    }
}

/// More syllables allowed accept no fewer words, and a range is the union of the
/// numbers in it.
pub proof fn wider_ranges_accept_more(w: Seq<u8>, a: nat, b: nat, c: nat, d: nat)
    requires
        c <= a,
        b <= d,
        in_syllable_range(w, a, b),
    ensures
        in_syllable_range(w, c, d),
        exists|k: nat| a <= k <= b && #[trigger] in_syllable_range(w, k, k),
{
    let k = choose|k: nat| a <= k <= b && #[trigger] has_syllables(w, k);
    assert(c <= k <= d && has_syllables(w, k));
    assert(in_syllable_range(w, k, k));
}

/// One of the four letters from `i` on is an a, e, i, o, u or y.
pub open spec fn has_vowel_from(w: Seq<u8>, i: int) -> bool {
    exists|j: int| i <= j < i + 4 && "aeiouy"@.contains(#[trigger] w[j] as char)
}

/// The three letters from `i` on are not all the same.
pub open spec fn has_change_from(w: Seq<u8>, i: int) -> bool {
    w[i] != w[i + 1] || w[i] != w[i + 2]
}

/// A plausible word has two, three or four vowels, of four letters in a row at
/// least one is a vowel, and of three in a row not all are the same; and every
/// word of which this holds is plausible.
pub proof fn plausible_words_alternate(w: Seq<u8>)
    ensures
        is_plausible(w) <==> {
            &&& 2 <= w.filter(|b: u8| "aeiouy"@.contains(b as char)).len() <= 4
            &&& forall|i: int| 0 <= i <= w.len() - 4 ==> #[trigger] has_vowel_from(w, i)
            &&& forall|i: int| 0 <= i <= w.len() - 3 ==> #[trigger] has_change_from(w, i)
        },
{
    assert forall|b: u8| is_vowel(b) == "aeiouy"@.contains(b as char) by {
        vowels_are_nuclei_of_one_letter(b);
    }
    assert((|b: u8| is_vowel(b)) =~= (|b: u8| "aeiouy"@.contains(b as char)));
    assert forall|i: int| 0 <= i <= w.len() - 4 implies #[trigger] has_vowel_from(w, i)
        == !four_consonants_at(w, i) by {
        if !four_consonants_at(w, i) {
            assert(is_vowel(w[i]) || is_vowel(w[i + 1]) || is_vowel(w[i + 2]) || is_vowel(w[i + 3]));
        }
    }
    assert forall|i: int| 0 <= i <= w.len() - 3 implies #[trigger] has_change_from(w, i)
        == !triple_at(w, i) by {}
    if is_plausible(w) {
        assert forall|i: int| 0 <= i <= w.len() - 4 implies #[trigger] has_vowel_from(w, i) by {
            assert(!four_consonants_at(w, i));
        }
        assert forall|i: int| 0 <= i <= w.len() - 3 implies #[trigger] has_change_from(w, i) by {
            assert(!triple_at(w, i));
        }
    } else {
        if exists|i: int| #[trigger] four_consonants_at(w, i) {
            let i = choose|i: int| #[trigger] four_consonants_at(w, i);
            assert(!has_vowel_from(w, i));
        }
        if exists|i: int| #[trigger] triple_at(w, i) {
            let i = choose|i: int| #[trigger] triple_at(w, i);
            assert(!has_change_from(w, i));
        }
    }
}

} // verus!
