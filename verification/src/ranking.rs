//! Orders: by score, and by severity and name.

use crate::answers::Verdict;
use crate::sort;
use vstd::prelude::*;
use vstd::utf8::*;

verus! {

/// Dictionary order of byte strings.
pub open spec fn is_before(a: Seq<u8>, b: Seq<u8>) -> bool
    decreases a.len(),
{
    if a.len() == 0 {
        true
    } else if b.len() == 0 {
        false
    } else if a[0] != b[0] {
        a[0] < b[0]
    } else {
        is_before(a.drop_first(), b.drop_first())
    }
}

/// Compares byte strings in dictionary order.
pub fn before(a: &[u8], b: &[u8]) -> (r: bool)
    ensures
        r == is_before(a@, b@),
{
    let mut i: usize = 0;
    assert(a@.skip(0) =~= a@ && b@.skip(0) =~= b@);
    while i < a.len() && i < b.len() && a[i] == b[i]
        invariant
            i <= a@.len(),
            i <= b@.len(),
            is_before(a@, b@) == is_before(a@.skip(i as int), b@.skip(i as int)),
        decreases a@.len() - i,
    {
        assert(a@.skip(i as int).drop_first() =~= a@.skip(i + 1));
        assert(b@.skip(i as int).drop_first() =~= b@.skip(i + 1));
        i = i + 1;
    }
    if i >= a.len() {
        true
    } else if i >= b.len() {
        false
    } else {
        a[i] < b[i]
    }
}

proof fn lemma_before_total(a: Seq<u8>, b: Seq<u8>)
    ensures
        is_before(a, b) || is_before(b, a),
    decreases a.len(),
{
    if a.len() > 0 && b.len() > 0 && a[0] == b[0] {
        lemma_before_total(a.drop_first(), b.drop_first());
    }
}

proof fn lemma_before_transitive(a: Seq<u8>, b: Seq<u8>, c: Seq<u8>)
    requires
        is_before(a, b),
        is_before(b, c),
    ensures
        is_before(a, c),
    decreases a.len(),
{
    if a.len() > 0 && b.len() > 0 && c.len() > 0 && a[0] == b[0] && b[0] == c[0] {
        lemma_before_transitive(a.drop_first(), b.drop_first(), c.drop_first());
    }
}

/// Dictionary order tells different byte strings apart.
pub proof fn dictionary_order_is_strict(a: Seq<u8>, b: Seq<u8>)
    ensures
        is_before(a, b) && is_before(b, a) <==> a == b,
    decreases a.len(),
{
    if a.len() > 0 && b.len() > 0 && a[0] == b[0] {
        dictionary_order_is_strict(a.drop_first(), b.drop_first());
        if a.drop_first() == b.drop_first() {
            assert(a =~= seq![a[0]] + a.drop_first());
            assert(b =~= seq![b[0]] + b.drop_first());
        }
    } else if a.len() == 0 && b.len() == 0 {
        assert(a =~= b);
    }
}

/// The order of descriptions: by increasing severity, then by name.
pub open spec fn by_severity() -> spec_fn(Verdict, Verdict) -> bool {
    |a: Verdict, b: Verdict|
        a.severity < b.severity || (a.severity == b.severity && is_before(
            encode_utf8(a.name@),
            encode_utf8(b.name@),
        ))
}

/// Severity and name order all descriptions.
pub proof fn severity_is_a_total_order()
    ensures
        sort::is_total_order(by_severity()),
{
    let leq = by_severity();
    assert forall|a: Verdict, b: Verdict| #[trigger] leq(a, b) || leq(b, a) by {
        lemma_before_total(encode_utf8(a.name@), encode_utf8(b.name@));
    }
    assert forall|a: Verdict, b: Verdict, c: Verdict| #[trigger]
        leq(a, b) && #[trigger] leq(b, c) implies leq(a, c) by {
        if a.severity == b.severity && b.severity == c.severity {
            lemma_before_transitive(
                encode_utf8(a.name@),
                encode_utf8(b.name@),
                encode_utf8(c.name@),
            );
        }
    }
}

/// Sorts the descriptions of a journal by increasing severity, then by name. The
/// file is also read by people, and severity is the useful ordering for choosing
/// a name.
pub fn sort_judgments(rows: Vec<Verdict>) -> (out: Vec<Verdict>)
    ensures
        sort::is_stable_sort(rows@, by_severity(), out@),
{
    let ghost leq = by_severity();
    let le = |a: &Verdict, b: &Verdict| -> (r: bool)
        ensures
            r == by_severity()(*a, *b),
        {
            a.severity < b.severity || (a.severity == b.severity && before(
                a.name.as_str().as_bytes(),
                b.name.as_str().as_bytes(),
            ))
        };
    proof {
        severity_is_a_total_order();
    }
    sort::merge_sort(rows, &le, Ghost(leq))
}

/// The place of a single-precision number, given by its bits, among all of them:
/// those without a sign from zero upwards by their bits, and those with a sign from
/// minus one downwards by the rest of their bits.
pub open spec fn place_of(bits: u32) -> int {
    if bits < 0x8000_0000 {
        bits as int
    } else {
        -1 - (bits - 0x8000_0000)
    }
}

/// The place of a single-precision number among all of them.
pub fn float_order(bits: u32) -> (r: i64)
    ensures
        r == place_of(bits),
{
    if bits < 0x8000_0000 {
        bits as i64
    } else {
        0x7fff_ffff - bits as i64
    }
}

/// Different numbers have different places.
pub proof fn places_differ(a: u32, b: u32)
    ensures
        place_of(a) == place_of(b) <==> a == b,
{
}

/// Among the numbers without a sign the greater bits come later, among those with
/// a sign earlier, and every number with a sign comes before every one without.
pub proof fn places_go_by_sign_and_size(a: u32, b: u32)
    ensures
        a < b < 0x8000_0000 ==> place_of(a) < place_of(b),
        0x8000_0000 <= a < b ==> place_of(a) > place_of(b),
        a < 0x8000_0000 <= b ==> place_of(b) < place_of(a),
{
}

/// The order of numbered items: the greatest number first.
pub open spec fn by_number<T>() -> spec_fn((i64, T), (i64, T)) -> bool {
    |a: (i64, T), b: (i64, T)| a.0 >= b.0
}

/// The items without the numbers they are ranked by.
pub open spec fn items<T>(numbered: Seq<(i64, T)>) -> Seq<T> {
    numbered.map_values(|p: (i64, T)| p.1)
}

/// Every item has the number that `number` gives it.
pub open spec fn is_numbered<T, K: Fn(&T) -> i64>(numbered: Seq<(i64, T)>, number: K) -> bool {
    forall|i: int|
        0 <= i < numbered.len() ==> call_ensures(
            number,
            (&(#[trigger] numbered[i]).1,),
            numbered[i].0,
        )
}

/// `out` is `input`, the greatest number first; items with equal numbers are left
/// in the order in which they came.
pub open spec fn is_ranking<T, K: Fn(&T) -> i64>(input: Seq<T>, number: K, out: Seq<T>) -> bool {
    exists|a: Seq<(i64, T)>, b: Seq<(i64, T)>|
        {
            &&& items(a) == input
            &&& is_numbered(a, number)
            &&& #[trigger] sort::is_stable_sort(a, by_number(), b)
            &&& items(b) == out
        }
}

/// Ranks items by number, the greatest one first.
pub fn rank_by<T, K: Fn(&T) -> i64>(v: Vec<T>, number: &K) -> (out: Vec<T>)
    requires
        forall|t: &T| call_requires(*number, (t,)),
    ensures
        is_ranking(v@, *number, out@),
{
    let ghost input = v@;
    let mut numbered: Vec<(i64, T)> = Vec::new();
    for t in it: v
        invariant
            it.seq() == input,
            forall|t: &T| call_requires(*number, (t,)),
            items(numbered@) =~= input.take(it.index()),
            is_numbered(numbered@, *number),
    {
        let ghost before = numbered@;
        let n = number(&t);
        numbered.push((n, t));
        assert(items(numbered@) =~= items(before).push(t));
    }
    assert(input.take(input.len() as int) =~= input);
    let ghost a = numbered@;
    let le = |x: &(i64, T), y: &(i64, T)| -> (r: bool)
        ensures
            r == (x.0 >= y.0),
        { x.0 >= y.0 };
    let sorted = sort::merge_sort(numbered, &le, Ghost(by_number()));
    let ghost b = sorted@;
    let mut out: Vec<T> = Vec::new();
    for p in it: sorted
        invariant
            it.seq() == b,
            out@ =~= items(b.take(it.index())),
    {
        assert(items(b.take(it.index() + 1)) =~= items(b.take(it.index())).push(p.1));
        out.push(p.1);
    }
    assert(b.take(b.len() as int) =~= b);
    out
}

/// `numbers` are numbers that `number` gives the items, and none of them is
/// smaller than a later one.
pub open spec fn is_descending<T, K: Fn(&T) -> i64>(
    list: Seq<T>,
    number: K,
    numbers: Seq<i64>,
) -> bool {
    &&& numbers.len() == list.len()
    &&& forall|i: int|
        0 <= i < list.len() ==> call_ensures(number, (&#[trigger] list[i],), numbers[i])
    &&& forall|i: int, j: int|
        0 <= i < j < list.len() ==> #[trigger] numbers[i] >= #[trigger] numbers[j]
}

/// A ranking has the items of the list, and no item stands behind one with a
/// smaller number.
pub proof fn a_ranking_is_in_order<T, K: Fn(&T) -> i64>(input: Seq<T>, number: K, out: Seq<T>)
    requires
        is_ranking(input, number, out),
    ensures
        out.to_multiset() == input.to_multiset(),
        exists|numbers: Seq<i64>| #[trigger] is_descending(out, number, numbers),
{
    let (a, b) = choose|a: Seq<(i64, T)>, b: Seq<(i64, T)>|
        {
            &&& items(a) == input
            &&& is_numbered(a, number)
            &&& #[trigger] sort::is_stable_sort(a, by_number(), b)
            &&& items(b) == out
        };
    lemma_items_multiset(a, b);
    let numbers = b.map_values(|p: (i64, T)| p.0);
    a.to_multiset_ensures();
    b.to_multiset_ensures();
    assert forall|i: int| 0 <= i < out.len() implies call_ensures(
        number,
        (&#[trigger] out[i],),
        numbers[i],
    ) by {
        assert(b.contains(b[i]));
        assert(a.to_multiset().count(b[i]) > 0);
        assert(a.contains(b[i]));
        let j = choose|j: int| 0 <= j < a.len() && a[j] == b[i];
        assert(call_ensures(number, (&a[j].1,), a[j].0));
        assert(out[i] == b[i].1);
    }
    assert forall|i: int, j: int| 0 <= i < j < out.len() implies #[trigger] numbers[i]
        >= #[trigger] numbers[j] by {
        assert(by_number()(b[i], b[j]));
    }
    assert(is_descending(out, number, numbers));
}

/// Equal collections of numbered items hold equal collections of items.
proof fn lemma_items_multiset<T>(a: Seq<(i64, T)>, b: Seq<(i64, T)>)
    requires
        a.to_multiset() == b.to_multiset(),
    ensures
        items(a).to_multiset() == items(b).to_multiset(),
    decreases a.len(),
{
    a.to_multiset_ensures();
    b.to_multiset_ensures();
    if a.len() == 0 {
        assert(b.len() == 0);
        assert(items(a) =~= items(b));
    } else {
        let x = a.last();
        assert(a.contains(x));
        assert(b.to_multiset().count(x) > 0);
        assert(b.contains(x));
        let j = choose|j: int| 0 <= j < b.len() && b[j] == x;
        let rest = b.remove(j);
        assert(a.drop_last().push(x) =~= a);
        assert(a.remove(a.len() - 1) =~= a.drop_last());
        assert(a.drop_last().to_multiset() =~= rest.to_multiset());
        lemma_items_multiset(a.drop_last(), rest);
        items(a).to_multiset_ensures();
        items(b).to_multiset_ensures();
        items(a.drop_last()).to_multiset_ensures();
        assert(items(a) =~= items(a.drop_last()).push(x.1));
        assert(items(rest) =~= items(b).remove(j));
        assert(items(b)[j] == x.1);
        assert(items(a).to_multiset() =~= items(b).to_multiset());
    }
}

// What the orders come to

/// In dictionary order a byte string comes before another exactly when it is the
/// beginning of it, or has the smaller byte where they first differ.
pub proof fn dictionary_order_goes_by_the_first_difference(a: Seq<u8>, b: Seq<u8>)
    ensures
        is_before(a, b) <==> (a.is_prefix_of(b) || exists|d: int|
            0 <= d < a.len() && d < b.len() && #[trigger] a[d] < b[d] && a.take(d) == b.take(d)),
    decreases a.len(),
{
    if a.len() == 0 {
        assert(a.is_prefix_of(b)) by {
            assert(a =~= b.subrange(0, 0));
        }
    } else if b.len() > 0 {
        let x = a.drop_first();
        let y = b.drop_first();
        if a[0] == b[0] {
            dictionary_order_goes_by_the_first_difference(x, y);
            if x.is_prefix_of(y) {
                assert(a =~= b.subrange(0, a.len() as int)) by {
                    assert forall|i: int| 0 <= i < a.len() implies a[i] == b[i] by {
                        if i > 0 {
                            assert(x[i - 1] == y.subrange(0, x.len() as int)[i - 1]);
                        }
                    }
                }
            }
            if a.is_prefix_of(b) {
                assert(x =~= y.subrange(0, x.len() as int)) by {
                    assert forall|i: int| 0 <= i < x.len() implies x[i] == y[i] by {
                        assert(a[i + 1] == b.subrange(0, a.len() as int)[i + 1]);
                    }
                }
            }
            if exists|d: int|
                0 <= d < x.len() && d < y.len() && #[trigger] x[d] < y[d] && x.take(d) == y.take(
                    d,
                ) {
                let d = choose|d: int|
                    0 <= d < x.len() && d < y.len() && #[trigger] x[d] < y[d] && x.take(d)
                        == y.take(d);
                assert(a[d + 1] < b[d + 1]);
                assert(a.take(d + 1) =~= b.take(d + 1)) by {
                    assert forall|i: int| 0 <= i < d + 1 implies a[i] == b[i] by {
                        if i > 0 {
                            assert(x.take(d)[i - 1] == y.take(d)[i - 1]);
                        }
                    }
                }
            }
            if exists|d: int|
                0 <= d < a.len() && d < b.len() && #[trigger] a[d] < b[d] && a.take(d) == b.take(
                    d,
                ) {
                let d = choose|d: int|
                    0 <= d < a.len() && d < b.len() && #[trigger] a[d] < b[d] && a.take(d)
                        == b.take(d);
                assert(d > 0);
                assert(x[d - 1] < y[d - 1]);
                assert(x.take(d - 1) =~= y.take(d - 1)) by {
                    assert forall|i: int| 0 <= i < d - 1 implies x[i] == y[i] by {
                        assert(a.take(d)[i + 1] == b.take(d)[i + 1]);
                    }
                }
            }
        } else {
            assert(!a.is_prefix_of(b)) by {
                if a.is_prefix_of(b) {
                    assert(a[0] == b.subrange(0, a.len() as int)[0]);
                }
            }
            assert(a.take(0) =~= b.take(0));
            if exists|d: int|
                0 <= d < a.len() && d < b.len() && #[trigger] a[d] < b[d] && a.take(d) == b.take(
                    d,
                ) {
                let d = choose|d: int|
                    0 <= d < a.len() && d < b.len() && #[trigger] a[d] < b[d] && a.take(d)
                        == b.take(d);
                if d > 0 {
                    assert(a.take(d)[0] == b.take(d)[0]);
                }
            }
        }
    }
}

/// Sorted descriptions are those that were given, the least severe first, and those
/// of the same severity in the dictionary order of their names.
pub proof fn sorted_judgments_go_by_severity(rows: Seq<Verdict>, out: Seq<Verdict>, i: int, j: int)
    requires
        sort::is_stable_sort(rows, by_severity(), out),
        0 <= i < j < out.len(),
    ensures
        out.to_multiset() == rows.to_multiset(),
        out[i].severity <= out[j].severity,
        out[i].severity == out[j].severity ==> is_before(
            encode_utf8(out[i].name@),
            encode_utf8(out[j].name@),
        ),
{
    assert(by_severity()(out[i], out[j]));
}

proof fn lemma_numbered_class<T, K: Fn(&T) -> i64>(
    numbered: Seq<(i64, T)>,
    number: K,
    f: spec_fn(T) -> i64,
    v: i64,
)
    requires
        is_numbered(numbered, number),
        forall|t: T, n: i64| #[trigger] call_ensures(number, (&t,), n) ==> n == f(t),
    ensures
        items(numbered.filter(|p: (i64, T)| p.0 == v)) == items(numbered).filter(
            |t: T| f(t) == v,
        ),
    decreases numbered.len(),
{
    reveal(Seq::filter);
    let p = |p: (i64, T)| p.0 == v;
    let q = |t: T| f(t) == v;
    if numbered.len() > 0 {
        let rest = numbered.drop_last();
        let last = numbered.last();
        assert forall|i: int| 0 <= i < rest.len() implies call_ensures(
            number,
            (&(#[trigger] rest[i]).1,),
            rest[i].0,
        ) by {
            assert(rest[i] == numbered[i]);
        }
        lemma_numbered_class(rest, number, f, v);
        assert(call_ensures(
            number,
            (&numbered[numbered.len() - 1].1,),
            numbered[numbered.len() - 1].0,
        ));
        assert(last.0 == f(last.1));
        assert(items(numbered).drop_last() =~= items(rest));
        assert(items(numbered).last() == last.1);
        if last.0 == v {
            assert(items(rest.filter(p).push(last)) =~= items(rest.filter(p)).push(last.1));
        }
    } else {
        assert(items(numbered.filter(p)) =~= items(numbered).filter(q));
    }
}

/// A ranking goes from the greatest number to the smallest, and leaves items with
/// the same number in the order in which they came: those with number `v` are the
/// same, in the same order, before and after.
pub proof fn equal_numbers_keep_their_order<T, K: Fn(&T) -> i64>(
    input: Seq<T>,
    number: K,
    f: spec_fn(T) -> i64,
    out: Seq<T>,
    v: i64,
)
    requires
        is_ranking(input, number, out),
        forall|t: T, n: i64| #[trigger] call_ensures(number, (&t,), n) ==> n == f(t),
    ensures
        out.filter(|t: T| f(t) == v) == input.filter(|t: T| f(t) == v),
        forall|i: int, j: int|
            0 <= i < j < out.len() ==> f(#[trigger] out[i]) >= f(#[trigger] out[j]),
{
    let (a, b) = choose|a: Seq<(i64, T)>, b: Seq<(i64, T)>|
        {
            &&& items(a) == input
            &&& is_numbered(a, number)
            &&& #[trigger] sort::is_stable_sort(a, by_number(), b)
            &&& items(b) == out
        };
    a.to_multiset_ensures();
    b.to_multiset_ensures();
    assert(is_numbered(b, number)) by {
        assert forall|i: int| 0 <= i < b.len() implies call_ensures(
            number,
            (&(#[trigger] b[i]).1,),
            b[i].0,
        ) by {
            assert(b.contains(b[i]));
            assert(a.to_multiset().count(b[i]) > 0);
            assert(a.contains(b[i]));
            let j = choose|j: int| 0 <= j < a.len() && a[j] == b[i];
            assert(call_ensures(number, (&a[j].1,), a[j].0));
        }
    }
    lemma_numbered_class(a, number, f, v);
    lemma_numbered_class(b, number, f, v);
    assert forall|i: int, j: int| 0 <= i < j < out.len() implies f(#[trigger] out[i]) >= f(
        #[trigger] out[j],
    ) by {
        assert(by_number()(b[i], b[j]));
        assert(call_ensures(number, (&b[i].1,), b[i].0));
        assert(call_ensures(number, (&b[j].1,), b[j].0));
        assert(out[i] == b[i].1 && out[j] == b[j].1);
    }
    let p = |x: (i64, T)| x.0 == v;
    if input.len() > 0 {
        let some = (v, input[0]);
        let same = sort::equals(by_number::<T>(), some);
        assert(same =~= p) by {
            assert forall|x: (i64, T)| #[trigger] same(x) == p(x) by {}
        }
        assert(b.filter(sort::equals(by_number::<T>(), some)) == a.filter(
            sort::equals(by_number::<T>(), some),
        ));
    } else {
        assert(a.len() == 0 && b.len() == 0);
        assert(a =~= b);
    }
}

} // verus!
