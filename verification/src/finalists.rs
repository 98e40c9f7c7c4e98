//! From scored names to described finalists.

use crate::answers;
use crate::answers::Triage;
use crate::answers::Verdict;
use crate::journal;
use crate::keyed::KeyedMap;
use crate::names;
use crate::ranking;
use crate::selection;
use crate::text;
use vstd::prelude::*;
use vstd::utf8::*;

verus! {

/// The name has an entry.
pub open spec fn is_present<V>(cache: Map<Seq<u8>, V>) -> spec_fn(Seq<char>) -> bool {
    |n: Seq<char>| cache.contains_key(encode_utf8(n))
}

/// The names that have a score already, in their order, with their scores.
/// `to_score` turns what was kept of a score into a score.
pub fn scored<S, F: Fn(u64) -> S>(list: &[String], cache: &KeyedMap<u64>, to_score: F) -> (r: Vec<
    Triage<S>,
>)
    requires
        forall|bits: u64| call_requires(to_score, (bits,)),
    ensures
        answers::scored_names(r@) == text::texts(list@).filter(is_present(cache@)),
        forall|i: int|
            0 <= i < r@.len() ==> call_ensures(
                to_score,
                (cache@[encode_utf8((#[trigger] r@[i]).name@)],),
                r@[i].fit,
            ),
{
    let ghost all = text::texts(list@);
    let ghost p = is_present(cache@);
    let mut r: Vec<Triage<S>> = Vec::new();
    proof {
        selection::lemma_filter_nothing(all, p);
        assert(answers::scored_names(r@) =~= Seq::empty());
    }
    for i in 0..list.len()
        invariant
            forall|bits: u64| call_requires(to_score, (bits,)),
            all == text::texts(list@),
            p == is_present(cache@),
            answers::scored_names(r@) == all.take(i as int).filter(p),
            forall|j: int|
                0 <= j < r@.len() ==> call_ensures(
                    to_score,
                    (cache@[encode_utf8((#[trigger] r@[j]).name@)],),
                    r@[j].fit,
                ),
    {
        let name = list[i].as_str();
        assert(all[i as int] == name@);
        proof {
            selection::lemma_filter_step(all, i as int, p);
        }
        let ghost before = answers::scored_names(r@);
        if let Some(bits) = cache.get(name.as_bytes()) {
            let fit = to_score(*bits);
            r.push(Triage { name: text::copy_text(name), fit });
            assert(answers::scored_names(r@) =~= before.push(name@));
        }
    }
    assert(all.take(list@.len() as int) =~= all);
    r
}

/// Where batch `i` of a list of `len` names begins.
pub open spec fn batch_start(len: nat, size: nat, i: int) -> int {
    if i * size < len {
        i * size
    } else {
        len as int
    }
}

/// `parts` is `list`, cut into batches of `size`; only the last one may be
/// smaller, and none is empty.
pub open spec fn is_cut(list: Seq<Seq<char>>, size: nat, parts: Seq<Vec<String>>) -> bool {
    &&& parts.len() == (list.len() + size - 1) / size as int
    &&& forall|i: int|
        0 <= i < parts.len() ==> text::texts((#[trigger] parts[i])@) == list.subrange(
            batch_start(list.len(), size, i),
            batch_start(list.len(), size, i + 1),
        )
}

/// Cuts a list of names into batches.
pub fn batches(list: &[String], size: usize) -> (r: Vec<Vec<String>>)
    requires
        size > 0,
    ensures
        is_cut(text::texts(list@), size as nat, r@),
{
    let ghost all = text::texts(list@);
    let n = list.len();
    let mut r: Vec<Vec<String>> = Vec::new();
    let mut start: usize = 0;
    assert(0 * size == 0) by (nonlinear_arith);
    proof {
        if n == 0 {
            assert((n + size - 1) / size as int == 0) by (nonlinear_arith)
                requires
                    n == 0,
                    size > 0,
            ;
        }
    }
    while start < n
        invariant
            size > 0,
            n == list.len(),
            all == text::texts(list@),
            start <= n,
            start == batch_start(n as nat, size as nat, r@.len() as int),
            start < n ==> start == r@.len() * size,
            start == n ==> r@.len() == (n + size - 1) / size as int,
            forall|i: int|
                0 <= i < r@.len() ==> text::texts((#[trigger] r@[i])@) == all.subrange(
                    batch_start(n as nat, size as nat, i),
                    batch_start(n as nat, size as nat, i + 1),
                ),
        decreases n - start,
    {
        let end: usize = if n - start > size {
            start + size
        } else {
            n
        };
        let mut part: Vec<String> = Vec::new();
        for j in start..end
            invariant
                all == text::texts(list@),
                start <= end <= list@.len(),
                text::texts(part@) =~= all.subrange(start as int, j as int),
        {
            let name = text::copy_text(list[j].as_str());
            let ghost before = text::texts(part@);
            part.push(name);
            assert(text::texts(part@) =~= before.push(name@));
            assert(all[j as int] == name@);
        }
        proof {
            let k = r@.len() as int;
            assert((k + 1) * size == k * size + size) by (nonlinear_arith);
            if end == n {
                assert((n + size - 1) / size as int == k + 1) by (nonlinear_arith)
                    requires
                        k * size < n <= k * size + size,
                        size > 0,
                ;
            }
        }
        let ghost before = r@;
        r.push(part);
        start = end;
        assert forall|i: int| 0 <= i < r@.len() implies text::texts((#[trigger] r@[i])@)
            == all.subrange(
            batch_start(n as nat, size as nat, i),
            batch_start(n as nat, size as nat, i + 1),
        ) by {
            if i < before.len() {
                assert(r@[i] == before[i]);
            }
        }
    }
    r
}

/// The texts of batches.
pub open spec fn batch_texts(parts: Seq<Vec<String>>) -> Seq<Seq<Seq<char>>> {
    parts.map_values(|p: Vec<String>| text::texts(p@))
}

proof fn lemma_batches_in_a_row(list: Seq<Seq<char>>, size: nat, parts: Seq<Vec<String>>, k: int)
    requires
        size > 0,
        is_cut(list, size, parts),
        0 <= k <= parts.len(),
    ensures
        batch_texts(parts.take(k)).flatten() == list.take(batch_start(list.len(), size, k)),
    decreases k,
{
    let len = list.len();
    if k == 0 {
        assert(0 * size == 0) by (nonlinear_arith);
        assert(batch_texts(parts.take(0)) =~= Seq::<Seq<Seq<char>>>::empty());
        batch_texts(parts.take(0)).lemma_flatten_push(Seq::empty());
        assert(batch_texts(parts.take(0)).flatten() =~= Seq::empty());
        assert(list.take(0) =~= Seq::empty());
    } else {
        lemma_batches_in_a_row(list, size, parts, k - 1);
        let last = text::texts(parts[k - 1]@);
        assert(batch_texts(parts.take(k)) =~= batch_texts(parts.take(k - 1)).push(last));
        batch_texts(parts.take(k - 1)).lemma_flatten_push(last);
        assert(0 <= (k - 1) * size <= k * size) by (nonlinear_arith)
            requires
                k >= 1,
                size > 0,
        ;
        assert(list.take(batch_start(len, size, k)) =~= list.take(batch_start(len, size, k - 1))
            + list.subrange(batch_start(len, size, k - 1), batch_start(len, size, k)));
    }
}

/// No name is lost between batches, and none is asked for twice: the batches one
/// after the other are the list.
pub proof fn batches_make_up_the_list(list: Seq<Seq<char>>, size: nat, parts: Seq<Vec<String>>)
    requires
        size > 0,
        is_cut(list, size, parts),
    ensures
        batch_texts(parts).flatten() == list,
{
    lemma_batches_in_a_row(list, size, parts, parts.len() as int);
    assert(parts.take(parts.len() as int) =~= parts);
    let n = list.len();
    let k = parts.len();
    assert(k * size >= n) by (nonlinear_arith)
        requires
            k == (n + size - 1) / size as int,
            size > 0,
    ;
    assert(list.take(n as int) =~= list);
}

/// A scored name is never sent back to the model and therefore never paid for
/// twice: once its score has been recorded, later runs with that model leave the
/// name out, and it makes no difference to any other name.
pub proof fn scored_names_are_not_asked_again(
    t: Seq<char>,
    line: Seq<char>,
    name: Seq<char>,
    fit: u64,
    model: Seq<char>,
    n: Seq<char>,
)
    requires
        t.len() == 0 || t.last() == '\n',
        journal::is_fit_record(line, name, fit, model),
    ensures
        ({
            let before = selection::is_missing(
                journal::fits_in(journal::records_of(t), model),
            );
            let after = selection::is_missing(
                journal::fits_in(journal::records_of(t + line.push('\n')), model),
            );
            after(n) <==> before(n) && n != name
        }),
{
    let other = model.push('x');
    assert(other.len() != model.len());
    journal::recorded_scores_are_read_back(t, line, name, fit, model, other);
    text::bytes_identify_text(n, name);
}

/// A name already described by the same model and prompt is never sent back to the
/// model.
pub proof fn described_names_are_not_asked_again(
    rows: Seq<Verdict>,
    model: Seq<char>,
    prompt: Seq<char>,
    list: Seq<Seq<char>>,
    i: int,
)
    requires
        0 <= i < rows.len(),
        journal::is_current(rows[i], model, prompt),
    ensures
        !list.filter(
            selection::is_missing(journal::current_in(rows, model, prompt)),
        ).contains(rows[i].name@),
{
    journal::recorded_descriptions_are_found(rows, model, prompt, i);
    lemma_present_is_not_missing(list, journal::current_in(rows, model, prompt), rows[i].name@);
}

proof fn lemma_present_is_not_missing<V>(
    list: Seq<Seq<char>>,
    cache: Map<Seq<u8>, V>,
    name: Seq<char>,
)
    requires
        cache.contains_key(encode_utf8(name)),
    ensures
        !list.filter(selection::is_missing(cache)).contains(name),
{
    let p = selection::is_missing(cache);
    let left = list.filter(p);
    if left.contains(name) {
        let j = choose|j: int| 0 <= j < left.len() && left[j] == name;
        list.lemma_filter_pred(p, j);
    }
}

// Ranking and diversity

/// Ranks scored names, the greatest number first. `number` gives the number by
/// which a scored name is ranked.
pub fn rank<S, K: Fn(&Triage<S>) -> i64>(rated: Vec<Triage<S>>, number: &K) -> (r: Vec<Triage<S>>)
    requires
        forall|t: &Triage<S>| call_requires(*number, (t,)),
    ensures
        ranking::is_ranking(rated@, *number, r@),
{
    ranking::rank_by(rated, number)
}

/// Greedy selection: a name is kept when it shares no n-gram of size `k` with a
/// name kept before it. With size zero every name is kept.
pub open spec fn diverse_of<S>(rated: Seq<Triage<S>>, k: nat) -> Seq<Triage<S>>
    decreases rated.len(),
{
    if rated.len() == 0 {
        Seq::empty()
    } else {
        let kept = diverse_of(rated.drop_last(), k);
        if names::shares(rated.last().name@, k, names::grams_of(answers::scored_names(kept), k)) {
            kept
        } else {
            kept.push(rated.last())
        }
    }
}

/// Greedy selection by rank: accepts a name only when it shares no n-gram with a
/// name already retained. Without it, ranking returns clusters of near-duplicates:
/// many names, few ideas.
pub fn diverse<S>(rated: Vec<Triage<S>>, diversity: usize) -> (r: Vec<Triage<S>>)
    ensures
        r@ == diverse_of(rated@, diversity as nat),
{
    let ghost all = rated@;
    if diversity == 0 {
        proof {
            lemma_everything_is_diverse(all);
        }
        return rated;
    }
    let ghost k = diversity as nat;
    let mut taken: KeyedMap<()> = KeyedMap::new();
    let mut kept: Vec<Triage<S>> = Vec::new();
    assert(all.take(0) =~= Seq::empty());
    assert(taken@.dom() =~= names::grams_of(answers::scored_names(kept@), k));
    for t in it: rated
        invariant
            it.seq() == all,
            diversity > 0,
            k == diversity,
            taken@.dom() == names::grams_of(answers::scored_names(kept@), k),
            kept@ == diverse_of(all.take(it.index()), k),
    {
        let ghost i = it.index();
        assert(all.take(i + 1).drop_last() =~= all.take(i));
        assert(all.take(i + 1).last() == t);
        if !names::shares_gram(t.name.as_str(), diversity, &taken) {
            let ghost before = answers::scored_names(kept@);
            names::add_grams(&mut taken, t.name.as_str(), diversity, Ghost(before));
            kept.push(t);
            assert(answers::scored_names(kept@) =~= before.push(t.name@));
        }
    }
    assert(all.take(all.len() as int) =~= all);
    kept
}

proof fn lemma_everything_is_diverse<S>(rated: Seq<Triage<S>>)
    ensures
        diverse_of(rated, 0) == rated,
    decreases rated.len(),
{
    if rated.len() > 0 {
        lemma_everything_is_diverse(rated.drop_last());
        assert(rated.drop_last().push(rated.last()) =~= rated);
    } else {
        assert(rated =~= Seq::empty());
    }
}

/// The two names have no n-gram of size `k` in common.
pub open spec fn have_no_gram_in_common(a: Seq<char>, b: Seq<char>, k: nat) -> bool {
    forall|g: Seq<u8>|
        !(names::is_gram(g, encode_utf8(a), k) && #[trigger] names::is_gram(g, encode_utf8(b), k))
}

/// Two finalists never share an n-gram of the chosen size.
pub proof fn finalists_differ<S>(rated: Seq<Triage<S>>, k: nat, i: int, j: int)
    requires
        k > 0,
        0 <= i < j < diverse_of(rated, k).len(),
    ensures
        have_no_gram_in_common(diverse_of(rated, k)[i].name@, diverse_of(rated, k)[j].name@, k),
    decreases rated.len(),
{
    let kept = diverse_of(rated.drop_last(), k);
    let all = diverse_of(rated, k);
    if j < kept.len() {
        finalists_differ(rated.drop_last(), k, i, j);
    } else {
        let list = answers::scored_names(kept);
        let a = all[i].name@;
        let b = all[j].name@;
        assert(list[i] == a);
        assert forall|g: Seq<u8>|
            !(names::is_gram(g, encode_utf8(a), k) && #[trigger] names::is_gram(
                g,
                encode_utf8(b),
                k,
            )) by {
            if names::is_gram(g, encode_utf8(a), k) && names::is_gram(g, encode_utf8(b), k) {
                assert(names::grams_of(list, k).contains(g));
                let p = choose|p: int| #[trigger] names::gram_at(g, encode_utf8(b), k, p);
                assert(names::grams_of(list, k).contains(encode_utf8(b).subrange(p, p + k)));
                assert(names::shares(b, k, names::grams_of(list, k)));
            }
        }
    }
}

/// What was kept early stays kept, in place: more names behind it change nothing.
pub proof fn better_names_are_decided_first<S>(rated: Seq<Triage<S>>, k: nat, n: int)
    requires
        0 <= n <= rated.len(),
    ensures
        diverse_of(rated.take(n), k).len() <= diverse_of(rated, k).len(),
        diverse_of(rated, k).take(diverse_of(rated.take(n), k).len() as int) == diverse_of(
            rated.take(n),
            k,
        ),
    decreases rated.len(),
{
    if n == rated.len() {
        assert(rated.take(n) =~= rated);
        assert(diverse_of(rated, k).take(diverse_of(rated, k).len() as int) =~= diverse_of(
            rated,
            k,
        ));
    } else {
        let rest = rated.drop_last();
        better_names_are_decided_first(rest, k, n);
        assert(rest.take(n) =~= rated.take(n));
        let m = diverse_of(rated.take(n), k).len() as int;
        assert(diverse_of(rated, k).take(m) =~= diverse_of(rest, k).take(m));
    }
}

/// A name is rejected only for an n-gram that it shares with a better name that
/// was kept: the name at `n` is either kept right behind those kept before it, or
/// it shares an n-gram with one of them.
pub proof fn rejected_names_resemble_a_finalist<S>(rated: Seq<Triage<S>>, k: nat, n: int)
    requires
        0 <= n < rated.len(),
    ensures
        ({
            let before = diverse_of(rated.take(n), k);
            if names::shares(
                rated[n].name@,
                k,
                names::grams_of(answers::scored_names(before), k),
            ) {
                diverse_of(rated.take(n + 1), k) == before
            } else {
                &&& diverse_of(rated, k).len() > before.len()
                &&& diverse_of(rated, k)[before.len() as int] == rated[n]
            }
        }),
{
    let before = diverse_of(rated.take(n), k);
    assert(rated.take(n + 1).drop_last() =~= rated.take(n));
    better_names_are_decided_first(rated, k, n + 1);
    let next = diverse_of(rated.take(n + 1), k);
    if next.len() > before.len() {
        assert(next == before.push(rated[n]));
        assert(diverse_of(rated, k).take(next.len() as int)[before.len() as int] == rated[n]);
    }
}

// Descriptions

/// The names of the best scored names, at most `keep` of them.
pub fn finalists<S>(rated: &Vec<Triage<S>>, keep: usize) -> (r: Vec<String>)
    ensures
        text::texts(r@) == answers::scored_names(rated@).take(
            if keep < rated@.len() {
                keep as int
            } else {
                rated@.len() as int
            },
        ),
{
    let n: usize = if keep < rated.len() {
        keep
    } else {
        rated.len()
    };
    let mut r: Vec<String> = Vec::new();
    for i in 0..n
        invariant
            n <= rated@.len(),
            text::texts(r@) =~= answers::scored_names(rated@).take(i as int),
    {
        let name = text::copy_text(rated[i].name.as_str());
        let ghost before = text::texts(r@);
        r.push(name);
        assert(text::texts(r@) =~= before.push(name@));
    }
    r
}

/// The descriptions that exist already, in the order of the finalists.
pub fn described<'a>(list: &[String], cache: &'a KeyedMap<Verdict>) -> (r: Vec<&'a Verdict>)
    ensures
        r@ == text::texts(list@).filter(is_present(cache@)).map_values(
            |n: Seq<char>| &cache@[encode_utf8(n)],
        ),
{
    let ghost all = text::texts(list@);
    let ghost p = is_present(cache@);
    let ghost f = |n: Seq<char>| &cache@[encode_utf8(n)];
    let mut r: Vec<&'a Verdict> = Vec::new();
    proof {
        selection::lemma_filter_nothing(all, p);
        assert(r@ =~= all.take(0).filter(p).map_values(f));
    }
    for i in 0..list.len()
        invariant
            all == text::texts(list@),
            p == is_present(cache@),
            f == (|n: Seq<char>| &cache@[encode_utf8(n)]),
            r@ == all.take(i as int).filter(p).map_values(f),
    {
        let name = list[i].as_str();
        assert(all[i as int] == name@);
        proof {
            selection::lemma_filter_step(all, i as int, p);
        }
        let ghost before = all.take(i as int).filter(p);
        if let Some(v) = cache.get(name.as_bytes()) {
            r.push(v);
            assert(r@ =~= before.push(name@).map_values(f));
        }
    }
    assert(all.take(list@.len() as int) =~= all);
    r
}

/// A run that described nothing although there was something to describe.
#[derive(Debug, Clone, Copy, PartialEq, Eq, Structural)]
pub struct NothingDescribed {
    pub finalists: usize,
}

impl NothingDescribed {
    /// The error in words.
    pub fn message(&self) -> (r: String)
        ensures
            r@ == "no descriptions obtained for "@ + text::decimal_digits(self.finalists as nat)
                + " finalists; see errors above"@,
    {
        let mut r = text::copy_text("no descriptions obtained for ");
        r.append(text::decimal(self.finalists).as_str());
        r.append(" finalists; see errors above");
        r
    }
}

/// The number of finalists without a description. Exiting successfully after all
/// descriptions fail would make an empty file look like a valid result.
pub fn outcome(finalists: usize, written: usize) -> (r: Result<usize, NothingDescribed>)
    requires
        written <= finalists,
    ensures
        match r {
            Ok(missing) => (written > 0 || finalists == 0) && missing == finalists - written,
            Err(e) => written == 0 && finalists > 0 && e.finalists == finalists,
        },
{
    if written == 0 && finalists > 0 {
        Err(NothingDescribed { finalists })
    } else {
        Ok(finalists - written)
    }
}

// What the selection comes to

/// A name is kept exactly when it has no run of `k` bytes in common with any name
/// kept before it: then it stands right behind those, and otherwise nothing is
/// added.
pub proof fn names_are_rejected_for_a_run_in_common<S>(rated: Seq<Triage<S>>, k: nat, n: int)
    requires
        k > 0,
        0 <= n < rated.len(),
    ensures
        ({
            let before = diverse_of(rated.take(n), k);
            let resembles = exists|m: int|
                0 <= m < before.len() && #[trigger] names::have_run_in_common(
                    rated[n].name@,
                    before[m].name@,
                    k,
                );
            &&& resembles ==> diverse_of(rated.take(n + 1), k) == before
            &&& !resembles ==> diverse_of(rated.take(n + 1), k) == before.push(rated[n])
        }),
{
    let before = diverse_of(rated.take(n), k);
    let list = answers::scored_names(before);
    let name = rated[n].name@;
    assert(rated.take(n + 1).drop_last() =~= rated.take(n));
    assert(rated.take(n + 1).last() == rated[n]);
    names::sharing_is_having_a_run_in_common(name, list, k);
    if names::shares(name, k, names::grams_of(list, k)) {
        let w = choose|w: int|
            0 <= w < list.len() && #[trigger] names::have_run_in_common(name, list[w], k);
        assert(names::have_run_in_common(name, before[w].name@, k));
    } else {
        assert forall|m: int| 0 <= m < before.len() implies !#[trigger] names::have_run_in_common(
            name,
            before[m].name@,
            k,
        ) by {
            assert(list[m] == before[m].name@);
            assert(!names::have_run_in_common(name, list[m], k));
        }
    }
}

/// With size zero, and of an empty list, everything is kept.
pub proof fn everything_is_kept_without_a_size<S>(rated: Seq<Triage<S>>, k: nat)
    ensures
        diverse_of(rated, 0) == rated,
        diverse_of(rated.take(0), k).len() == 0,
{
    lemma_everything_is_diverse(rated);
}

/// Two finalists have no run of `k` bytes in common, wherever it stands in the one
/// or in the other.
pub proof fn finalists_have_no_run_in_common<S>(
    rated: Seq<Triage<S>>,
    k: nat,
    a: int,
    b: int,
    i: int,
    j: int,
)
    requires
        k > 0,
        0 <= a < b < diverse_of(rated, k).len(),
        0 <= i,
        0 <= j,
        i + k <= encode_utf8(diverse_of(rated, k)[a].name@).len(),
        j + k <= encode_utf8(diverse_of(rated, k)[b].name@).len(),
    ensures
        encode_utf8(diverse_of(rated, k)[a].name@).subrange(i, i + k) != encode_utf8(
            diverse_of(rated, k)[b].name@,
        ).subrange(j, j + k),
{
    finalists_differ(rated, k, a, b);
    let x = encode_utf8(diverse_of(rated, k)[a].name@);
    let y = encode_utf8(diverse_of(rated, k)[b].name@);
    if x.subrange(i, i + k) == y.subrange(j, j + k) {
        let g = x.subrange(i, i + k);
        assert(names::gram_at(g, x, k, i));
        assert(names::gram_at(g, y, k, j));
        assert(names::is_gram(g, x, k) && names::is_gram(g, y, k));
    }
}

/// Every batch has `size` names, but for the last one, which has at least one and at
/// most as many.
pub proof fn batches_are_full(list: Seq<Seq<char>>, size: nat, parts: Seq<Vec<String>>, i: int)
    requires
        size > 0,
        is_cut(list, size, parts),
        0 <= i < parts.len(),
    ensures
        i < parts.len() - 1 ==> parts[i]@.len() == size,
        1 <= parts[i]@.len() <= size,
{
    let n = list.len();
    let k = parts.len();
    assert(text::texts(parts[i]@).len() == parts[i]@.len());
    assert(text::texts(parts[i]@) == list.subrange(
        batch_start(n, size, i),
        batch_start(n, size, i + 1),
    ));
    assert((k - 1) * size < n <= k * size) by (nonlinear_arith)
        requires
            k == (n + size - 1) / size as int,
            size > 0,
            k > 0,
    ;
    assert(0 <= i * size <= (k - 1) * size) by (nonlinear_arith)
        requires
            0 <= i <= k - 1,
            size > 0,
    ;
    assert((i + 1) * size == i * size + size) by (nonlinear_arith);
    if i < k - 1 {
        assert((i + 1) * size <= (k - 1) * size) by (nonlinear_arith)
            requires
                i + 1 <= k - 1,
                size > 0,
        ;
    }
}

/// Every name of a list is either still to be asked for or has an entry, and none
/// is both.
pub proof fn names_are_missing_or_present<V>(
    list: Seq<Seq<char>>,
    cache: Map<Seq<u8>, V>,
    n: Seq<char>,
)
    ensures
        list.filter(is_present(cache)).contains(n) <==> list.contains(n) && cache.dom().contains(
            encode_utf8(n),
        ),
        list.filter(is_present(cache)).len() + list.filter(selection::is_missing(cache)).len()
            == list.len(),
{
    selection::lemma_filter_has(list, is_present(cache), n);
    selection::lemma_filter_parts(list, is_present(cache), selection::is_missing(cache));
}

} // verus!
