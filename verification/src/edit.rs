//! Bounded edit distance used to reject names that are too close to a seed.
//!
//! The n-gram filter misses cases like `cenroid` and `centroid`: they share no
//! 5-gram even though they differ by only one letter. A technical term that is
//! one letter off does not read like an invented name to engineers who know the
//! real word; it reads like a typo.

use vstd::prelude::*;
use vstd::utf8::*;

verus! {

/// The smaller of two natural numbers.
pub open spec fn min2(x: nat, y: nat) -> nat {
    if x <= y {
        x
    } else {
        y
    }
}

/// Levenshtein distance: the least number of single-byte insertions, deletions
/// and substitutions that turn `a` into `b`.
pub open spec fn distance(a: Seq<u8>, b: Seq<u8>) -> nat
    decreases a.len() + b.len(),
{
    if a.len() == 0 {
        b.len()
    } else if b.len() == 0 {
        a.len()
    } else {
        let keep_or_replace = distance(a.drop_last(), b.drop_last()) + if a.last() == b.last() {
            0nat
        } else {
            1nat
        };
        let delete = distance(a.drop_last(), b) + 1;
        let insert = distance(a, b.drop_last()) + 1;
        min2(keep_or_replace, min2(delete, insert))
    }
}

/// Distance between the first `i` bytes of `a` and the first `j` bytes of `b`.
spec fn cell(a: Seq<u8>, b: Seq<u8>, i: int, j: int) -> nat {
    distance(a.take(i), b.take(j))
}

/// The recurrence of the dynamic program, cell by cell.
proof fn lemma_cell(a: Seq<u8>, b: Seq<u8>, i: int, j: int)
    requires
        0 <= i <= a.len(),
        0 <= j <= b.len(),
    ensures
        i == 0 ==> cell(a, b, i, j) == j,
        j == 0 ==> cell(a, b, i, j) == i,
        i > 0 && j > 0 ==> cell(a, b, i, j) == min2(
            cell(a, b, i - 1, j - 1) + if a[i - 1] == b[j - 1] {
                0nat
            } else {
                1nat
            },
            min2(cell(a, b, i - 1, j) + 1, cell(a, b, i, j - 1) + 1),
        ),
{
    if i > 0 && j > 0 {
        assert(a.take(i).drop_last() =~= a.take(i - 1));
        assert(b.take(j).drop_last() =~= b.take(j - 1));
    }
}

/// Once every cell of a row is at least `k`, every cell of the next row is too.
proof fn lemma_row_step(a: Seq<u8>, b: Seq<u8>, i: int, k: nat, j: int)
    requires
        0 <= i < a.len(),
        0 <= j <= b.len(),
        forall|q: int| 0 <= q <= b.len() ==> #[trigger] cell(a, b, i, q) >= k,
    ensures
        cell(a, b, i + 1, j) >= k,
    decreases j,
{
    lemma_cell(a, b, i + 1, j);
    lemma_cell(a, b, i, 0);
    assert(cell(a, b, i, j) >= k);
    assert(cell(a, b, i, 0) >= k);
    if j > 0 {
        lemma_row_step(a, b, i, k, j - 1);
        assert(cell(a, b, i, j - 1) >= k);
    }
}

/// Once every cell of row `i` is at least `k`, so is the full distance.
proof fn lemma_rows_never_recover(a: Seq<u8>, b: Seq<u8>, i: int, k: nat)
    requires
        0 <= i <= a.len(),
        forall|q: int| 0 <= q <= b.len() ==> #[trigger] cell(a, b, i, q) >= k,
    ensures
        distance(a, b) >= k,
    decreases a.len() - i,
{
    if i == a.len() {
        assert(cell(a, b, i, b.len() as int) >= k);
        assert(a.take(i) =~= a);
        assert(b.take(b.len() as int) =~= b);
    } else {
        assert forall|q: int| 0 <= q <= b.len() implies #[trigger] cell(a, b, i + 1, q) >= k by {
            lemma_row_step(a, b, i, k, q);
        }
        lemma_rows_never_recover(a, b, i + 1, k);
    }
}

/// The distance is at least the difference of the lengths and at most the
/// longer length.
pub proof fn distance_bounds(a: Seq<u8>, b: Seq<u8>)
    ensures
        distance(a, b) >= a.len() - b.len(),
        distance(a, b) >= b.len() - a.len(),
        distance(a, b) <= a.len() || distance(a, b) <= b.len(),
    decreases a.len() + b.len(),
{
    if a.len() > 0 && b.len() > 0 {
        distance_bounds(a.drop_last(), b.drop_last());
        distance_bounds(a.drop_last(), b);
        distance_bounds(a, b.drop_last());
    }
}

/// `y` is `x` with one byte inserted, deleted or replaced.
pub open spec fn one_edit(x: Seq<u8>, y: Seq<u8>) -> bool {
    ||| exists|i: int, c: u8| 0 <= i <= x.len() && y == #[trigger] x.insert(i, c)
    ||| exists|i: int| 0 <= i < x.len() && y == #[trigger] x.remove(i)
    ||| exists|i: int, c: u8| 0 <= i < x.len() && y == #[trigger] x.update(i, c)
}

/// `y` can be reached from `x` in at most `k` edits.
pub open spec fn within_edits(x: Seq<u8>, y: Seq<u8>, k: nat) -> bool
    decreases k,
{
    ||| x == y
    ||| k > 0 && exists|z: Seq<u8>| #[trigger] one_edit(x, z) && within_edits(z, y, (k - 1) as nat)
}

/// The distance from a word to itself is zero, and only to itself.
pub proof fn distance_zero_iff_equal(a: Seq<u8>, b: Seq<u8>)
    ensures
        distance(a, b) == 0 <==> a == b,
    decreases a.len() + b.len(),
{
    distance_bounds(a, b);
    if a.len() > 0 && b.len() > 0 {
        distance_zero_iff_equal(a.drop_last(), b.drop_last());
        if a.drop_last() == b.drop_last() && a.last() == b.last() {
            assert(a =~= a.drop_last().push(a.last()));
            assert(b =~= b.drop_last().push(b.last()));
        }
    } else if a.len() == b.len() {
        assert(a =~= b);
    }
}

/// The distance does not depend on the order of the two words.
pub proof fn distance_symmetric(a: Seq<u8>, b: Seq<u8>)
    ensures
        distance(a, b) == distance(b, a),
    decreases a.len() + b.len(),
{
    if a.len() > 0 && b.len() > 0 {
        distance_symmetric(a.drop_last(), b.drop_last());
        distance_symmetric(a.drop_last(), b);
        distance_symmetric(a, b.drop_last());
    }
}

/// Going through a third word is never shorter.
pub proof fn distance_triangle(a: Seq<u8>, b: Seq<u8>, c: Seq<u8>)
    ensures
        distance(a, c) <= distance(a, b) + distance(b, c),
    decreases a.len() + b.len() + c.len(),
{
    distance_bounds(a, b);
    distance_bounds(b, c);
    distance_bounds(a, c);
    if a.len() > 0 && b.len() > 0 && c.len() > 0 {
        distance_triangle(a.drop_last(), b, c);
        distance_triangle(a, b, c.drop_last());
        distance_triangle(a.drop_last(), b.drop_last(), c.drop_last());
        distance_triangle(a, b.drop_last(), c.drop_last());
        distance_triangle(a, b.drop_last(), c);
        distance_triangle(a.drop_last(), b.drop_last(), c);
    }
}

/// A common suffix adds nothing to the distance.
proof fn lemma_common_suffix(p: Seq<u8>, q: Seq<u8>, s: Seq<u8>)
    ensures
        distance(p + s, q + s) <= distance(p, q),
    decreases s.len(),
{
    if s.len() == 0 {
        assert(p + s =~= p);
        assert(q + s =~= q);
    } else {
        assert((p + s).drop_last() =~= p + s.drop_last());
        assert((q + s).drop_last() =~= q + s.drop_last());
        lemma_common_suffix(p, q, s.drop_last());
    }
}

/// One edit moves a word by at most one.
proof fn lemma_one_edit_distance(x: Seq<u8>, y: Seq<u8>)
    requires
        one_edit(x, y),
    ensures
        distance(x, y) <= 1,
{
    if exists|i: int, c: u8| 0 <= i <= x.len() && y == #[trigger] x.insert(i, c) {
        let (i, c) = choose|i: int, c: u8| 0 <= i <= x.len() && y == #[trigger] x.insert(i, c);
        let p = x.take(i);
        lemma_push_distance(p, c);
        lemma_common_suffix(p, p.push(c), x.skip(i));
        assert(x =~= p + x.skip(i));
        assert(y =~= p.push(c) + x.skip(i));
    } else if exists|i: int| 0 <= i < x.len() && y == #[trigger] x.remove(i) {
        let i = choose|i: int| 0 <= i < x.len() && y == #[trigger] x.remove(i);
        let p = x.take(i);
        lemma_push_distance(p, x[i]);
        lemma_common_suffix(p.push(x[i]), p, x.skip(i + 1));
        assert(x =~= p.push(x[i]) + x.skip(i + 1));
        assert(y =~= p + x.skip(i + 1));
    } else {
        let (i, c) = choose|i: int, c: u8| 0 <= i < x.len() && y == #[trigger] x.update(i, c);
        let p = x.take(i);
        distance_zero_iff_equal(p, p);
        assert(p.push(x[i]).drop_last() =~= p);
        assert(p.push(c).drop_last() =~= p);
        lemma_common_suffix(p.push(x[i]), p.push(c), x.skip(i + 1));
        assert(x =~= p.push(x[i]) + x.skip(i + 1));
        assert(y =~= p.push(c) + x.skip(i + 1));
    }
}

proof fn lemma_push_distance(p: Seq<u8>, c: u8)
    ensures
        distance(p, p.push(c)) <= 1,
        distance(p.push(c), p) <= 1,
{
    distance_zero_iff_equal(p, p);
    assert(p.push(c).drop_last() =~= p);
}

/// A further edit at the end of a sequence of edits.
proof fn lemma_extend_edits(x: Seq<u8>, y: Seq<u8>, z: Seq<u8>, k: nat)
    requires
        within_edits(x, y, k),
        one_edit(y, z),
    ensures
        within_edits(x, z, k + 1),
    decreases k,
{
    if x == y {
        assert(within_edits(z, z, k));
    } else {
        let w = choose|w: Seq<u8>| #[trigger] one_edit(x, w) && within_edits(w, y, (k - 1) as nat);
        lemma_extend_edits(w, y, z, (k - 1) as nat);
    }
}

/// The same edits apply in front of a common last byte.
proof fn lemma_push_edits(x: Seq<u8>, y: Seq<u8>, c: u8, k: nat)
    requires
        within_edits(x, y, k),
    ensures
        within_edits(x.push(c), y.push(c), k),
    decreases k,
{
    if x != y {
        let w = choose|w: Seq<u8>| #[trigger] one_edit(x, w) && within_edits(w, y, (k - 1) as nat);
        lemma_push_edits(w, y, c, (k - 1) as nat);
        assert(one_edit(x.push(c), w.push(c))) by {
            if exists|i: int, d: u8| 0 <= i <= x.len() && w == #[trigger] x.insert(i, d) {
                let (i, d) = choose|i: int, d: u8|
                    0 <= i <= x.len() && w == #[trigger] x.insert(i, d);
                assert(w.push(c) =~= x.push(c).insert(i, d));
            } else if exists|i: int| 0 <= i < x.len() && w == #[trigger] x.remove(i) {
                let i = choose|i: int| 0 <= i < x.len() && w == #[trigger] x.remove(i);
                assert(w.push(c) =~= x.push(c).remove(i));
            } else {
                let (i, d) = choose|i: int, d: u8|
                    0 <= i < x.len() && w == #[trigger] x.update(i, d);
                assert(w.push(c) =~= x.push(c).update(i, d));
            }
        }
    }
}

/// Some sequence of `distance(a, b)` edits turns `a` into `b`.
proof fn lemma_edits_exist(a: Seq<u8>, b: Seq<u8>)
    ensures
        within_edits(a, b, distance(a, b)),
    decreases a.len() + b.len(),
{
    if a.len() == 0 {
        if b.len() == 0 {
            assert(a =~= b);
        } else {
            lemma_edits_exist(a, b.drop_last());
            assert(b =~= b.drop_last().insert(b.len() - 1, b.last()));
            lemma_extend_edits(a, b.drop_last(), b, distance(a, b.drop_last()));
        }
    } else if b.len() == 0 {
        lemma_edits_exist(a.drop_last(), b);
        assert(a.drop_last() =~= a.remove(a.len() - 1));
        assert(one_edit(a, a.drop_last()));
    } else {
        let a1 = a.drop_last();
        let b1 = b.drop_last();
        assert(a =~= a1.push(a.last()));
        assert(b =~= b1.push(b.last()));
        if distance(a, b) == distance(a1, b) + 1 {
            lemma_edits_exist(a1, b);
            assert(a1 =~= a.remove(a.len() - 1));
            assert(one_edit(a, a1));
        } else if distance(a, b) == distance(a, b1) + 1 {
            lemma_edits_exist(a, b1);
            assert(b =~= b1.insert(b.len() - 1, b.last()));
            lemma_extend_edits(a, b1, b, distance(a, b1));
        } else {
            lemma_edits_exist(a1, b1);
            lemma_push_edits(a1, b1, a.last(), distance(a1, b1));
            if a.last() != b.last() {
                assert(b =~= b1.push(a.last()).update(b.len() - 1, b.last()));
                lemma_extend_edits(a, b1.push(a.last()), b, distance(a1, b1));
            }
        }
    }
}

/// The distance counts edits: it is at most `k` exactly when at most `k`
/// insertions, deletions and replacements of single bytes turn `a` into `b`.
pub proof fn distance_counts_edits(a: Seq<u8>, b: Seq<u8>, k: nat)
    ensures
        distance(a, b) <= k <==> within_edits(a, b, k),
    decreases k,
{
    if within_edits(a, b, k) {
        if a == b {
            distance_zero_iff_equal(a, b);
        } else {
            let z = choose|z: Seq<u8>| #[trigger] one_edit(a, z) && within_edits(z, b, (k - 1) as nat);
            distance_counts_edits(z, b, (k - 1) as nat);
            lemma_one_edit_distance(a, z);
            distance_triangle(a, z, b);
        }
    }
    if distance(a, b) <= k {
        lemma_edits_exist(a, b);
        lemma_more_edits(a, b, distance(a, b), k);
    }
}

/// What a few edits reach, more edits reach as well.
proof fn lemma_more_edits(x: Seq<u8>, y: Seq<u8>, j: nat, k: nat)
    requires
        within_edits(x, y, j),
        j <= k,
    ensures
        within_edits(x, y, k),
    decreases j,
{
    if x != y {
        let z = choose|z: Seq<u8>| #[trigger] one_edit(x, z) && within_edits(z, y, (j - 1) as nat);
        lemma_more_edits(z, y, (j - 1) as nat, (k - 1) as nat);
    }
}

/// Returns true when the Levenshtein distance between `a` and `b` is strictly
/// less than `max`. Stops as soon as the entire current row reaches `max`, which
/// is much faster than a full calculation when the words differ.
pub fn closer_than(a: &[u8], b: &[u8], max: usize) -> (r: bool)
    ensures
        r == (distance(a@, b@) < max),
{
    proof {
        distance_bounds(a@, b@);
    }
    let difference: usize = if a.len() >= b.len() {
        a.len() - b.len()
    } else {
        b.len() - a.len()
    };
    if difference >= max {
        return false;
    }
    // row[j] is the distance between the bytes of `a` read so far and the
    // first j + 1 bytes of `b`.
    let mut row: Vec<usize> = Vec::new();
    for j in 0..b.len()
        invariant
            row.len() == j,
            forall|q: int| 0 <= q < j ==> #[trigger] row@[q] == cell(a@, b@, 0, q + 1),
    {
        proof {
            lemma_cell(a@, b@, 0, j + 1);
        }
        row.push(j + 1);
    }
    for i in 0..a.len()
        invariant
            row.len() == b.len(),
            forall|q: int| 0 <= q < b.len() ==> #[trigger] row@[q] == cell(a@, b@, i as int, q + 1),
    {
        let ghost above = row@;
        proof {
            lemma_cell(a@, b@, i as int, 0);
            lemma_cell(a@, b@, i + 1, 0);
        }
        let mut diagonal: usize = i;
        let mut left: usize = i + 1;
        let mut row_min: usize = left;
        for j in 0..b.len()
            invariant
                i < a.len(),
                row.len() == b.len(),
                above.len() == b.len(),
                diagonal == cell(a@, b@, i as int, j as int),
                left == cell(a@, b@, i + 1, j as int),
                forall|q: int| 0 <= q < j ==> #[trigger] row@[q] == cell(a@, b@, i + 1, q + 1),
                forall|q: int| j <= q < b.len() ==> #[trigger] row@[q] == above[q],
                forall|q: int| 0 <= q < b.len() ==> #[trigger] above[q] == cell(a@, b@, i as int, q + 1),
                forall|q: int| 0 <= q <= j ==> row_min <= #[trigger] cell(a@, b@, i + 1, q),
                exists|q: int| 0 <= q <= j && row_min == #[trigger] cell(a@, b@, i + 1, q),
        {
            proof {
                lemma_cell(a@, b@, i + 1, j + 1);
                distance_bounds(a@.take(i + 1), b@.take(j + 1));
            }
            let up: usize = row[j];
            assert(up == cell(a@, b@, i as int, j + 1));
            let mut value: usize = if a[i] == b[j] {
                diagonal
            } else {
                diagonal.saturating_add(1)
            };
            if up.saturating_add(1) < value {
                value = up.saturating_add(1);
            }
            if left.saturating_add(1) < value {
                value = left.saturating_add(1);
            }
            assert(value == cell(a@, b@, i + 1, j + 1));
            diagonal = up;
            left = value;
            row.set(j, value);
            if value < row_min {
                row_min = value;
            }
        }
        // The entire row is already beyond the threshold; subsequent rows can
        // only increase, so the result is known.
        if row_min >= max {
            proof {
                lemma_rows_never_recover(a@, b@, i + 1, max as nat);
            }
            return false;
        }
    }
    assert(a@.take(a.len() as int) =~= a@);
    assert(b@.take(b.len() as int) =~= b@);
    if b.len() == 0 {
        a.len() < max
    } else {
        assert(row@[b.len() - 1] == cell(a@, b@, a.len() as int, b.len() - 1 + 1));
        row[b.len() - 1] < max
    }
}

/// Returns true when `word` is fewer than `max` edits away from any reference.
pub fn near_any(word: &str, refs: &[String], max: usize) -> (r: bool)
    ensures
        r == exists|i: int|
            0 <= i < refs@.len() && distance(
                encode_utf8(word@),
                encode_utf8((#[trigger] refs@[i])@),
            ) < max,
{
    let bytes = word.as_bytes();
    for i in 0..refs.len()
        invariant
            bytes@ == encode_utf8(word@),
            forall|q: int|
                0 <= q < i ==> distance(
                    encode_utf8(word@),
                    encode_utf8((#[trigger] refs@[q])@),
                ) >= max,
    {
        if closer_than(bytes, refs[i].as_str().as_bytes(), max) {
            return true;
        }
    }
    false
}

/// Putting one byte in, taking one out, or replacing one by another makes a distance
/// of one.
pub proof fn one_edit_makes_a_distance_of_one(x: Seq<u8>, i: int, c: u8)
    requires
        0 <= i <= x.len(),
    ensures
        distance(x, x.insert(i, c)) == 1,
        distance(x.insert(i, c), x) == 1,
        i < x.len() ==> distance(x, x.remove(i)) == 1,
        i < x.len() && x[i] != c ==> distance(x, x.update(i, c)) == 1,
{
    assert(one_edit(x, x.insert(i, c)));
    lemma_one_edit_distance(x, x.insert(i, c));
    distance_zero_iff_equal(x, x.insert(i, c));
    distance_symmetric(x, x.insert(i, c));
    assert(x.insert(i, c).len() != x.len());
    if i < x.len() {
        assert(one_edit(x, x.remove(i)));
        lemma_one_edit_distance(x, x.remove(i));
        distance_zero_iff_equal(x, x.remove(i));
        assert(x.remove(i).len() != x.len());
        if x[i] != c {
            assert(one_edit(x, x.update(i, c)));
            lemma_one_edit_distance(x, x.update(i, c));
            distance_zero_iff_equal(x, x.update(i, c));
            assert(x.update(i, c)[i] == c);
        }
    }
}

} // verus!
