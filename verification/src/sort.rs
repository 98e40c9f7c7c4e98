//! A stable merge sort over any total order.

use vstd::multiset::*;
use vstd::prelude::*;
use vstd::seq_lib::*;

verus! {

/// Every two elements are comparable, and the order is transitive.
pub open spec fn is_total_order<T>(leq: spec_fn(T, T) -> bool) -> bool {
    &&& forall|a: T, b: T| #[trigger] leq(a, b) || leq(b, a)
    &&& forall|a: T, b: T, c: T| #[trigger] leq(a, b) && #[trigger] leq(b, c) ==> leq(a, c)
}

/// No element stands behind a greater one.
pub open spec fn is_sorted<T>(s: Seq<T>, leq: spec_fn(T, T) -> bool) -> bool {
    forall|i: int, j: int| 0 <= i < j < s.len() ==> leq(#[trigger] s[i], #[trigger] s[j])
}

/// The elements that the order cannot tell from `t`.
pub open spec fn equals<T>(leq: spec_fn(T, T) -> bool, t: T) -> spec_fn(T) -> bool {
    |x: T| leq(x, t) && leq(t, x)
}

/// `out` is `input` in order, with elements that compare equal left in the order
/// in which they came.
pub open spec fn is_stable_sort<T>(
    input: Seq<T>,
    leq: spec_fn(T, T) -> bool,
    out: Seq<T>,
) -> bool {
    &&& is_sorted(out, leq)
    &&& out.to_multiset() == input.to_multiset()
    &&& forall|t: T| #[trigger] out.filter(equals(leq, t)) == input.filter(equals(leq, t))
}

/// `le` decides `leq`.
pub open spec fn decides<T, F: Fn(&T, &T) -> bool>(le: F, leq: spec_fn(T, T) -> bool) -> bool {
    &&& forall|a: &T, b: &T| call_requires(le, (a, b))
    &&& forall|a: &T, b: &T, r: bool| #[trigger] call_ensures(le, (a, b), r) ==> r == leq(*a, *b)
}

/// What is left of two lists and what was moved behind them, class by class.
spec fn same_classes<T>(
    leq: spec_fn(T, T) -> bool,
    input: Seq<T>,
    a: Seq<T>,
    b: Seq<T>,
    done: Seq<T>,
) -> bool {
    forall|t: T| #[trigger]
        input.filter(equals(leq, t)) == a.filter(equals(leq, t)) + b.filter(equals(leq, t))
            + done.filter(equals(leq, t))
}

proof fn lemma_filter_one<T>(x: T, s: Seq<T>, p: spec_fn(T) -> bool)
    ensures
        (seq![x] + s).filter(p) == (if p(x) {
            seq![x] + s.filter(p)
        } else {
            s.filter(p)
        }),
{
    Seq::filter_distributes_over_add(seq![x], s, p);
    lemma_filter_last(seq![x], p);
    assert(seq![x].drop_last() =~= Seq::<T>::empty());
    assert(Seq::<T>::empty().filter(p) =~= Seq::<T>::empty()) by {
        reveal(Seq::filter);
    }
    assert(seq![x].filter(p) =~= if p(x) {
        seq![x]
    } else {
        Seq::empty()
    });
    assert((seq![x] + s).filter(p) =~= if p(x) {
        seq![x] + s.filter(p)
    } else {
        s.filter(p)
    });
}

proof fn lemma_filter_last<T>(s: Seq<T>, p: spec_fn(T) -> bool)
    requires
        s.len() > 0,
    ensures
        s.filter(p) == (if p(s.last()) {
            s.drop_last().filter(p).push(s.last())
        } else {
            s.drop_last().filter(p)
        }),
{
    reveal(Seq::filter);
}

/// Moving the last element of the second list in front of those already moved.
proof fn lemma_move_second<T>(
    leq: spec_fn(T, T) -> bool,
    input: Seq<T>,
    a: Seq<T>,
    b: Seq<T>,
    done: Seq<T>,
)
    requires
        b.len() > 0,
        same_classes(leq, input, a, b, done),
    ensures
        same_classes(leq, input, a, b.drop_last(), seq![b.last()] + done),
{
    assert forall|t: T| #[trigger]
        input.filter(equals(leq, t)) == a.filter(equals(leq, t)) + b.drop_last().filter(
            equals(leq, t),
        ) + (seq![b.last()] + done).filter(equals(leq, t)) by {
        let p = equals(leq, t);
        lemma_filter_last(b, p);
        lemma_filter_one(b.last(), done, p);
        assert(input.filter(p) =~= a.filter(p) + b.drop_last().filter(p) + (seq![b.last()]
            + done).filter(p));
    }
}

/// Moving the last element of the first list, when it is greater than all of
/// the second one.
proof fn lemma_move_first<T>(
    leq: spec_fn(T, T) -> bool,
    input: Seq<T>,
    a: Seq<T>,
    b: Seq<T>,
    done: Seq<T>,
)
    requires
        a.len() > 0,
        is_total_order(leq),
        forall|i: int| 0 <= i < b.len() ==> !leq(a.last(), #[trigger] b[i]),
        same_classes(leq, input, a, b, done),
    ensures
        same_classes(leq, input, a.drop_last(), b, seq![a.last()] + done),
{
    assert forall|t: T| #[trigger]
        input.filter(equals(leq, t)) == a.drop_last().filter(equals(leq, t)) + b.filter(
            equals(leq, t),
        ) + (seq![a.last()] + done).filter(equals(leq, t)) by {
        let p = equals(leq, t);
        let x = a.last();
        lemma_filter_last(a, p);
        lemma_filter_one(x, done, p);
        if p(x) {
            assert forall|i: int| 0 <= i < b.len() implies !p(#[trigger] b[i]) by {
                if p(b[i]) {
                    assert(leq(x, t) && leq(t, b[i]));
                }
            }
            b.lemma_all_neg_filter_empty(p);
            assert(b.filter(p) =~= Seq::empty());
        }
        assert(input.filter(p) =~= a.drop_last().filter(p) + b.filter(p) + (seq![x] + done).filter(
            p,
        ));
    }
}

/// Moving an element between lists keeps the elements as a whole.
proof fn lemma_move_multiset<T>(a: Seq<T>, done: Seq<T>)
    requires
        a.len() > 0,
    ensures
        a.to_multiset().add(done.to_multiset()) =~= a.drop_last().to_multiset().add(
            (seq![a.last()] + done).to_multiset(),
        ),
{
    lemma_multiset_commutative(a.drop_last(), seq![a.last()]);
    lemma_multiset_commutative(seq![a.last()], done);
    assert(a =~= a.drop_last() + seq![a.last()]);
}

/// Replacing two parts of a whole by two others with the same elements.
proof fn lemma_regroup<T>(
    rest: Multiset<T>,
    x: Multiset<T>,
    y: Multiset<T>,
    u: Multiset<T>,
    v: Multiset<T>,
)
    requires
        x.add(y) == u.add(v),
    ensures
        rest.add(x).add(y) == rest.add(u).add(v),
{
    assert(rest.add(x).add(y) =~= rest.add(x.add(y)));
    assert(rest.add(u).add(v) =~= rest.add(u.add(v)));
}

/// Merges two sorted lists; of equal elements those of `a` come first.
fn merge<T, F: Fn(&T, &T) -> bool>(
    a: Vec<T>,
    b: Vec<T>,
    le: &F,
    Ghost(leq): Ghost<spec_fn(T, T) -> bool>,
) -> (out: Vec<T>)
    requires
        is_total_order(leq),
        decides(*le, leq),
        is_sorted(a@, leq),
        is_sorted(b@, leq),
    ensures
        is_stable_sort(a@ + b@, leq, out@),
{
    let ghost input = a@ + b@;
    let mut a = a;
    let mut b = b;
    // The greatest elements so far, the greatest first.
    let mut tail: Vec<T> = Vec::new();
    let ghost mut done: Seq<T> = Seq::empty();
    proof {
        lemma_multiset_commutative(a@, b@);
        done.to_multiset_ensures();
        assert(input.to_multiset() =~= a@.to_multiset().add(b@.to_multiset()).add(
            done.to_multiset(),
        ));
        assert forall|t: T| #[trigger]
            input.filter(equals(leq, t)) == a@.filter(equals(leq, t)) + b@.filter(equals(leq, t))
                + done.filter(equals(leq, t)) by {
            Seq::filter_distributes_over_add(a@, b@, equals(leq, t));
            reveal(Seq::filter);
            assert(done.filter(equals(leq, t)) =~= Seq::empty());
            assert(input.filter(equals(leq, t)) =~= a@.filter(equals(leq, t)) + b@.filter(
                equals(leq, t),
            ) + done.filter(equals(leq, t)));
        }
        assert(tail@.reverse() =~= done);
    }
    while a.len() > 0 || b.len() > 0
        invariant
            is_total_order(leq),
            decides(*le, leq),
            is_sorted(a@, leq),
            is_sorted(b@, leq),
            is_sorted(done, leq),
            done == tail@.reverse(),
            forall|i: int, j: int|
                0 <= i < a@.len() && 0 <= j < done.len() ==> leq(
                    #[trigger] a@[i],
                    #[trigger] done[j],
                ),
            forall|i: int, j: int|
                0 <= i < b@.len() && 0 <= j < done.len() ==> leq(
                    #[trigger] b@[i],
                    #[trigger] done[j],
                ),
            input.to_multiset() == a@.to_multiset().add(b@.to_multiset()).add(done.to_multiset()),
            same_classes(leq, input, a@, b@, done),
        decreases a@.len() + b@.len(),
    {
        let from_b = if b.len() == 0 {
            false
        } else if a.len() == 0 {
            true
        } else {
            (*le)(&a[a.len() - 1], &b[b.len() - 1])
        };
        let ghost a0 = a@;
        let ghost b0 = b@;
        let ghost done0 = done;
        if from_b {
            proof {
                lemma_move_second(leq, input, a0, b0, done0);
                lemma_move_multiset(b0, done0);
                done = seq![b0.last()] + done;
                lemma_regroup(
                    a0.to_multiset(),
                    b0.to_multiset(),
                    done0.to_multiset(),
                    b0.drop_last().to_multiset(),
                    done.to_multiset(),
                );
                assert forall|i: int, j: int| 0 <= i < a0.len() && 0 <= j < done.len() implies leq(
                    #[trigger] a0[i],
                    #[trigger] done[j],
                ) by {
                    if j == 0 {
                        if i < a0.len() - 1 {
                            assert(leq(a0[i], a0[a0.len() - 1]));
                        }
                        assert(leq(a0[a0.len() - 1], b0.last()));
                    } else {
                        assert(done[j] == done0[j - 1]);
                    }
                }
                assert forall|i: int, j: int|
                    0 <= i < b0.len() - 1 && 0 <= j < done.len() implies leq(
                    #[trigger] b0[i],
                    #[trigger] done[j],
                ) by {
                    if j > 0 {
                        assert(done[j] == done0[j - 1]);
                    }
                }
                assert forall|i: int, j: int| 0 <= i < j < done.len() implies leq(
                    #[trigger] done[i],
                    #[trigger] done[j],
                ) by {
                    assert(done[j] == done0[j - 1]);
                    if i > 0 {
                        assert(done[i] == done0[i - 1]);
                    } else {
                        assert(done[i] == b0[b0.len() - 1]);
                    }
                }
            }
            if let Some(y) = b.pop() {
                tail.push(y);
            }
            assert(tail@.reverse() =~= done);
            assert(b@ =~= b0.drop_last());
        } else {
            proof {
                assert forall|i: int| 0 <= i < b0.len() implies !leq(a0.last(), #[trigger] b0[i])
                    && leq(b0[i], a0.last()) by {
                    let y = b0[b0.len() - 1];
                    assert(!leq(a0.last(), y));
                    assert(leq(y, a0.last()));
                    if i < b0.len() - 1 {
                        assert(leq(b0[i], y));
                        assert(leq(b0[i], a0.last()));
                    }
                }
                lemma_move_first(leq, input, a0, b0, done0);
                lemma_move_multiset(a0, done0);
                done = seq![a0.last()] + done;
                lemma_regroup(
                    b0.to_multiset(),
                    a0.to_multiset(),
                    done0.to_multiset(),
                    a0.drop_last().to_multiset(),
                    done.to_multiset(),
                );
                assert(a0.to_multiset().add(b0.to_multiset()) =~= b0.to_multiset().add(
                    a0.to_multiset(),
                ));
                assert(a0.drop_last().to_multiset().add(b0.to_multiset()) =~= b0.to_multiset().add(
                    a0.drop_last().to_multiset(),
                ));
                assert forall|i: int, j: int|
                    0 <= i < a0.len() - 1 && 0 <= j < done.len() implies leq(
                    #[trigger] a0[i],
                    #[trigger] done[j],
                ) by {
                    if j > 0 {
                        assert(done[j] == done0[j - 1]);
                    }
                }
                assert forall|i: int, j: int| 0 <= i < b0.len() && 0 <= j < done.len() implies leq(
                    #[trigger] b0[i],
                    #[trigger] done[j],
                ) by {
                    if j > 0 {
                        assert(done[j] == done0[j - 1]);
                    }
                }
                assert forall|i: int, j: int| 0 <= i < j < done.len() implies leq(
                    #[trigger] done[i],
                    #[trigger] done[j],
                ) by {
                    assert(done[j] == done0[j - 1]);
                    if i > 0 {
                        assert(done[i] == done0[i - 1]);
                    } else {
                        assert(done[i] == a0[a0.len() - 1]);
                    }
                }
            }
            if let Some(x) = a.pop() {
                tail.push(x);
            }
            assert(tail@.reverse() =~= done);
            assert(a@ =~= a0.drop_last());
        }
    }
    proof {
        a@.to_multiset_ensures();
        b@.to_multiset_ensures();
        assert(a@ =~= Seq::empty());
        assert(b@ =~= Seq::empty());
        assert(done.to_multiset() =~= input.to_multiset());
        assert forall|t: T| #[trigger]
            done.filter(equals(leq, t)) == input.filter(equals(leq, t)) by {
            reveal(Seq::filter);
            assert(input.filter(equals(leq, t)) =~= done.filter(equals(leq, t)));
        }
    }
    let mut out: Vec<T> = Vec::new();
    while tail.len() > 0
        invariant
            done == out@ + tail@.reverse(),
        decreases tail@.len(),
    {
        let ghost before = tail@;
        if let Some(x) = tail.pop() {
            assert(before.reverse() =~= seq![x] + tail@.reverse());
            out.push(x);
        }
        assert(done =~= out@ + tail@.reverse());
    }
    assert(out@ =~= done);
    out
}

/// Sorts a list.
pub(crate) fn merge_sort<T, F: Fn(&T, &T) -> bool>(
    v: Vec<T>,
    le: &F,
    Ghost(leq): Ghost<spec_fn(T, T) -> bool>,
) -> (out: Vec<T>)
    requires
        is_total_order(leq),
        decides(*le, leq),
    ensures
        is_stable_sort(v@, leq, out@),
    decreases v@.len(),
{
    if v.len() <= 1 {
        return v;
    }
    let ghost input = v@;
    let mut first = v;
    let middle: usize = first.len() / 2;
    let second = first.split_off(middle);
    let ghost a = first@;
    let ghost b = second@;
    assert(a + b =~= input);
    let sorted_first = merge_sort(first, le, Ghost(leq));
    let sorted_second = merge_sort(second, le, Ghost(leq));
    let out = merge(sorted_first, sorted_second, le, Ghost(leq));
    proof {
        let sa = sorted_first@;
        let sb = sorted_second@;
        lemma_multiset_commutative(a, b);
        lemma_multiset_commutative(sa, sb);
        assert forall|t: T| #[trigger] out@.filter(equals(leq, t)) == input.filter(
            equals(leq, t),
        ) by {
            Seq::filter_distributes_over_add(a, b, equals(leq, t));
            Seq::filter_distributes_over_add(sa, sb, equals(leq, t));
            assert(sa.filter(equals(leq, t)) == a.filter(equals(leq, t)));
            assert(sb.filter(equals(leq, t)) == b.filter(equals(leq, t)));
        }
    }
    out
}

} // verus!
