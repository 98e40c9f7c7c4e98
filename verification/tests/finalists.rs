use bitter_dotcom_generator::answers::{Triage, Verdict};
use bitter_dotcom_generator::finalists::{
    batches, described, diverse, finalists, outcome, rank, scored, NothingDescribed,
};
use bitter_dotcom_generator::journal::{fit_record, load_fit_cache, load_judged};
use bitter_dotcom_generator::keyed::KeyedMap;
use bitter_dotcom_generator::ranking::{before, float_order, rank_by, sort_judgments};
use bitter_dotcom_generator::selection::missing;

fn strings(list: &[&str]) -> Vec<String> {
    list.iter().map(|s| s.to_string()).collect()
}

fn rated(list: &[(&str, f32)]) -> Vec<Triage<f32>> {
    list.iter()
        .map(|(n, f)| Triage { name: n.to_string(), fit: *f })
        .collect()
}

fn names(list: &[Triage<f32>]) -> Vec<&str> {
    list.iter().map(|t| t.name.as_str()).collect()
}

fn number(t: &Triage<f32>) -> i64 {
    (t.fit * 100.0) as i64
}

fn verdict(name: &str, severity: u8) -> Verdict {
    Verdict {
        name: name.to_string(),
        tagline: String::new(),
        description: String::new(),
        rationale: String::new(),
        concerns: String::new(),
        model: String::new(),
        prompt: String::new(),
        severity,
    }
}

#[test]
fn cached_scores_are_used() {
    let mut cache: KeyedMap<u64> = KeyedMap::new();
    cache.insert(b"b".to_vec(), 2.5f64.to_bits());
    cache.insert(b"z".to_vec(), 9.0f64.to_bits());
    let r = scored(&strings(&["a", "b"]), &cache, |bits: u64| f64::from_bits(bits) as f32);
    assert_eq!(names(&r), ["b"]);
    assert_eq!(r[0].fit, 2.5);
}

#[test]
fn paid_work_is_not_asked_for_again() {
    let list = strings(&["a", "b", "c"]);
    let journal = format!(
        "{}\n{}\n",
        fit_record("a", "1", "m").unwrap(),
        fit_record("b", "2", "other").unwrap()
    );
    let cache = load_fit_cache(&journal, "m").unwrap();
    assert_eq!(missing(&list, &cache.scores), strings(&["b", "c"]));
    let mut row = verdict("c", 1);
    row.model = "m".to_string();
    row.prompt = "p".to_string();
    let (map, _) = load_judged(vec![row], "m", "p");
    assert_eq!(missing(&list, &map), strings(&["a", "b"]));
}

#[test]
fn batches_cover_the_list_once() {
    let list = strings(&["a", "b", "c", "d", "e"]);
    assert_eq!(
        batches(&list, 2),
        vec![strings(&["a", "b"]), strings(&["c", "d"]), strings(&["e"])]
    );
    assert_eq!(batches(&list, 5), vec![list.clone()]);
    assert_eq!(batches(&list, 99), vec![list.clone()]);
    assert_eq!(batches(&list, usize::MAX), vec![list.clone()]);
    assert!(batches(&[], 3).is_empty());
    for size in 1..7 {
        assert_eq!(batches(&list, size).concat(), list);
        assert_eq!(batches(&list, size).len(), list.len().div_ceil(size));
    }
}

#[test]
fn ranks_best_fit_first() {
    let r = rank(rated(&[("a", 1.0), ("b", 7.5), ("c", 1.0), ("d", 3.0)]), &number);
    assert_eq!(names(&r), ["b", "d", "a", "c"]);
}

#[test]
fn equal_numbers_keep_their_order() {
    let r = rank_by(vec!["aa", "b", "cc", "ddd"], &|s: &&str| s.len() as i64);
    assert_eq!(r, ["ddd", "aa", "cc", "b"]);
}

#[test]
fn near_duplicates_are_rejected() {
    let list = [("sequing", 9.0), ("sequary", 8.0), ("voronoi", 7.0), ("sequigi", 6.0), ("oron", 5.0), ("abc", 4.0)];
    assert_eq!(names(&diverse(rated(&list), 4)), ["sequing", "voronoi", "abc"]);
    assert_eq!(diverse(rated(&list), 0).len(), 6);
    assert_eq!(diverse(rated(&list), 99).len(), 6);
}

#[test]
fn a_rejected_name_does_not_reject_others() {
    // "bcde" is rejected for "bcd", so "cdex" is compared with "abcd" only.
    let list = [("abcd", 3.0), ("bcde", 2.0), ("dexy", 1.0)];
    assert_eq!(names(&diverse(rated(&list), 3)), ["abcd", "dexy"]);
}

#[test]
fn the_best_ones_are_finalists() {
    let list = rated(&[("a", 3.0), ("b", 2.0), ("c", 1.0)]);
    assert_eq!(finalists(&list, 2), strings(&["a", "b"]));
    assert_eq!(finalists(&list, 40), strings(&["a", "b", "c"]));
    assert!(finalists(&list, 0).is_empty());
}

#[test]
fn cached_descriptions_come_in_order() {
    let mut cache: KeyedMap<Verdict> = KeyedMap::new();
    cache.insert(b"a".to_vec(), verdict("a", 1));
    cache.insert(b"c".to_vec(), verdict("c", 2));
    let list = strings(&["c", "b", "a"]);
    let r: Vec<&str> = described(&list, &cache).iter().map(|v| v.name.as_str()).collect();
    assert_eq!(r, ["c", "a"]);
}

#[test]
fn a_run_without_descriptions_fails() {
    assert_eq!(outcome(3, 1), Ok(2));
    assert_eq!(outcome(3, 3), Ok(0));
    assert_eq!(outcome(0, 0), Ok(0));
    let e = outcome(12, 0).unwrap_err();
    assert_eq!(e, NothingDescribed { finalists: 12 });
    assert_eq!(e.message(), "no descriptions obtained for 12 finalists; see errors above");
}

#[test]
fn judgments_by_severity_then_name() {
    let rows = vec![verdict("b", 2), verdict("c", 1), verdict("a", 2), verdict("ab", 2), verdict("Z", 1)];
    let sorted: Vec<(u8, String)> =
        sort_judgments(rows).into_iter().map(|v| (v.severity, v.name)).collect();
    let mut expected = sorted.clone();
    expected.sort();
    assert_eq!(sorted, expected);
    assert_eq!(sorted[0], (1, "Z".to_string()));
    assert_eq!(sorted[3], (2, "ab".to_string()));
}

#[test]
fn dictionary_order() {
    let words: [&[u8]; 6] = [b"", b"a", b"ab", b"b", b"\xff", b"a\x00"];
    for a in words {
        for b in words {
            assert_eq!(before(a, b), a <= b);
            assert_eq!(before(a, b) && before(b, a), a == b);
        }
    }
}

#[test]
fn floats_in_their_total_order() {
    let list = [
        -f32::NAN, f32::NEG_INFINITY, f32::MIN, -1.5, -1.0, -f32::MIN_POSITIVE, -0.0, 0.0,
        f32::MIN_POSITIVE, 1.0, 1.5, f32::MAX, f32::INFINITY, f32::NAN,
    ];
    for a in list {
        for b in list {
            assert_eq!(
                float_order(a.to_bits()).cmp(&float_order(b.to_bits())),
                a.total_cmp(&b)
            );
        }
    }
    assert_eq!(float_order(0), 0);
    assert_eq!(float_order(0x8000_0000), -1);
}
