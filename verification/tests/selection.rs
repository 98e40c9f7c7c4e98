use bitter_dotcom_generator::check::Availability;
use bitter_dotcom_generator::journal::{load_cache, verdict_record};
use bitter_dotcom_generator::keyed::KeyedMap;
use bitter_dotcom_generator::scan::Candidate;
use bitter_dotcom_generator::selection::{available, limit_rows, missing, select};

fn strings(list: &[&str]) -> Vec<String> {
    list.iter().map(|s| s.to_string()).collect()
}

fn rows(list: &[(&str, i32)]) -> Vec<Candidate<i32>> {
    list.iter()
        .map(|(n, s)| Candidate { name: n.to_string(), score: *s })
        .collect()
}

fn names(list: &[Candidate<i32>]) -> Vec<&str> {
    list.iter().map(|c| c.name.as_str()).collect()
}

fn number(c: &Candidate<i32>) -> i64 {
    c.score as i64
}

#[test]
fn filters_and_ranks() {
    let seeds = strings(&["centroid", "zendesk"]);
    let found = rows(&[
        ("cenroid", 5),  // one edit from a seed
        ("sendesk", 9),  // shares "endesk"
        ("voronoi", 1),
        ("fractal", 3),
        ("delauna", 3),
    ]);
    let r = select(found, &seeds, 5, 3, 2, &number);
    assert_eq!(names(&r.ranked), ["fractal", "delauna", "voronoi"]);
    assert_eq!(r.shared_grams, 1);
    assert_eq!(r.close_copies, 1);
    assert_eq!(r.kept, 2);
}

#[test]
fn zero_disables_filters() {
    let seeds = strings(&["centroid"]);
    let found = rows(&[("centroid", 1), ("cenroid", 2)]);
    let r = select(found, &seeds, 0, 0, 9, &number);
    assert_eq!(names(&r.ranked), ["cenroid", "centroid"]);
    assert_eq!((r.shared_grams, r.close_copies, r.kept), (0, 0, 2));
}

#[test]
fn the_ngram_filter_misses_what_the_edit_filter_catches() {
    let seeds = strings(&["centroid"]);
    let found = || rows(&[("cenroid", 1)]);
    assert_eq!(select(found(), &seeds, 5, 0, 9, &number).ranked.len(), 1);
    assert_eq!(select(found(), &seeds, 0, 3, 9, &number).ranked.len(), 0);
}

#[test]
fn ranks_many_scores() {
    let found: Vec<Candidate<i32>> = (0..500)
        .map(|i| Candidate { name: format!("n{i}"), score: i * 7919 % 101 })
        .collect();
    let r = select(found, &[], 5, 3, 100, &number);
    assert_eq!(r.ranked.len(), 500);
    assert_eq!(r.kept, 100);
    for pair in r.ranked.windows(2) {
        assert!(pair[0].score >= pair[1].score);
    }
}

#[test]
fn limits() {
    let list = [("a", 1), ("b", 2), ("c", 3)];
    assert_eq!(names(&limit_rows(rows(&list), Some(2))), ["a", "b"]);
    assert_eq!(limit_rows(rows(&list), Some(0)).len(), 0);
    assert_eq!(limit_rows(rows(&list), Some(9)).len(), 3);
    assert_eq!(limit_rows(rows(&list), None).len(), 3);
}

#[test]
fn only_unanswered_names_are_asked_again() {
    let list = strings(&["a", "b", "c"]);
    let mut text = String::new();
    let known = load_cache(&text).unwrap();
    assert_eq!(missing(&list, &known), list);
    for (n, a) in [("a", Availability::Free), ("b", Availability::Unknown), ("c", Availability::Taken)] {
        text.push_str(&verdict_record(n, a));
        text.push('\n');
    }
    let known = load_cache(&text).unwrap();
    assert_eq!(missing(&list, &known), strings(&["b"]));
}

#[test]
fn only_free_names_are_available() {
    let mut known: KeyedMap<Availability> = KeyedMap::new();
    known.insert(b"a".to_vec(), Availability::Free);
    known.insert(b"b".to_vec(), Availability::Taken);
    known.insert(b"c".to_vec(), Availability::Free);
    let mut fresh: KeyedMap<Availability> = KeyedMap::new();
    fresh.insert(b"c".to_vec(), Availability::Unknown); // fresh counts more
    fresh.insert(b"d".to_vec(), Availability::Free);
    fresh.insert(b"e".to_vec(), Availability::Unknown);
    let r = available(
        rows(&[("f", 0), ("e", 1), ("d", 2), ("c", 3), ("b", 4), ("a", 5)]),
        &fresh,
        &known,
    );
    assert_eq!(names(&r), ["d", "a"]);
}
