use bitter_dotcom_generator::edit::{closer_than, near_any};

fn strings(list: &[&str]) -> Vec<String> {
    list.iter().map(|s| s.to_string()).collect()
}

/// Full Levenshtein matrix, for comparison.
fn plain_distance(a: &[u8], b: &[u8]) -> usize {
    let mut rows = vec![vec![0usize; b.len() + 1]; a.len() + 1];
    for i in 0..=a.len() {
        for j in 0..=b.len() {
            rows[i][j] = if i == 0 {
                j
            } else if j == 0 {
                i
            } else {
                let sub = rows[i - 1][j - 1] + usize::from(a[i - 1] != b[j - 1]);
                sub.min(rows[i - 1][j] + 1).min(rows[i][j - 1] + 1)
            };
        }
    }
    rows[a.len()][b.len()]
}

#[test]
fn known_distances() {
    assert!(closer_than(b"cenroid", b"centroid", 2)); // one insertion
    assert!(!closer_than(b"cenroid", b"centroid", 1));
    assert!(closer_than(b"fraccal", b"fractal", 2));
    assert!(!closer_than(b"nodagon", b"decagon", 3)); // three edits
    assert!(closer_than(b"multope", b"multus", 4));
    assert!(!closer_than(b"multope", b"multus", 3));
}

#[test]
fn length_difference_short_circuits() {
    assert!(!closer_than(b"ab", b"abcdef", 3));
}

#[test]
fn agrees_with_the_full_matrix() {
    let words: [&[u8]; 8] = [
        b"", b"a", b"ab", b"ba", b"kitten", b"sitting", b"saturday", b"sunday",
    ];
    for a in words {
        for b in words {
            for max in 0..10 {
                assert_eq!(closer_than(a, b, max), plain_distance(a, b) < max);
            }
        }
    }
}

#[test]
fn distance_laws_on_words() {
    // Zero edits exactly for equal words.
    assert!(closer_than(b"voronoi", b"voronoi", 1));
    assert!(!closer_than(b"voronoi", b"voronoa", 1));
    // The same in both directions.
    assert!(closer_than(b"kitten", b"sitting", 4));
    assert!(closer_than(b"sitting", b"kitten", 4));
    assert!(!closer_than(b"kitten", b"sitting", 3));
    assert!(!closer_than(b"sitting", b"kitten", 3));
}

#[test]
fn nothing_is_fewer_than_zero_edits_away() {
    assert!(!closer_than(b"", b"", 0));
    assert!(!near_any("abc", &strings(&["abc"]), 0));
}

#[test]
fn near_any_looks_at_every_reference() {
    let refs = strings(&["decagon", "fractal", "centroid"]);
    assert!(near_any("cenroid", &refs, 2));
    assert!(!near_any("cenroid", &refs, 1));
    assert!(!near_any("zzzzzzz", &refs, 3));
    assert!(!near_any("cenroid", &[], 9));
}

#[test]
fn going_through_a_third_word_is_never_shorter() {
    let words: [&[u8]; 5] = [b"", b"kitten", b"sitting", b"sit", b"mitten"];
    let within = |a: &[u8], b: &[u8]| (0..).find(|k| closer_than(a, b, k + 1)).unwrap();
    for a in words {
        for b in words {
            for c in words {
                assert!(within(a, c) <= within(a, b) + within(b, c));
            }
        }
    }
    assert_eq!(within(b"kitten", b"sitting"), 3);
}
