use bitter_dotcom_generator::markov::Markov;
use bitter_dotcom_generator::scan::{scan, ScanOpts};
use bitter_dotcom_generator::syllable::{is_pronounceable, plausible};

fn model() -> Markov<f32> {
    let words: Vec<String> = ["voronoi", "centroid", "fractal", "delaunay", "manifold", "ana"]
        .iter()
        .map(|s| s.to_string())
        .collect();
    Markov::train(
        &words,
        |c: u32, n: u64| (c + 1) as f32 / (n + 27) as f32,
        |c: u32, n: u64, t: u32, p: f32| (c as f32 + t as f32 * p) / (n as f32 + t as f32),
        |p: f32| p.ln(),
    )
}

fn found(m: &Markov<f32>, o: &ScanOpts, threshold: f32) -> Vec<(String, f32)> {
    let floor = threshold * (o.len + 1) as f32;
    scan(
        m,
        o,
        |a: f32, b: f32| a + b,
        |x: f32| x >= floor,
        |t: f32, n: usize| t / n as f32,
    )
    .into_iter()
    .map(|c| (c.name, c.score))
    .collect()
}

fn score(m: &Markov<f32>, word: &str) -> f32 {
    m.score(word, 0.0, |a: f32, b: f32| a + b, |t: f32, n: usize| t / n as f32)
}

#[test]
fn finds_exactly_the_names_above_the_threshold() {
    let m = model();
    let o = ScanOpts { len: 4, min_syl: 1, max_syl: 3 };
    let threshold = -1.9;
    let mut expected = Vec::new();
    for n in 0..26u32 * 26 * 26 * 26 {
        let w: Vec<u8> = [n / 17576, n / 676 % 26, n / 26 % 26, n % 26]
            .iter()
            .map(|s| *s as u8 + b'a')
            .collect();
        let name = String::from_utf8(w.clone()).unwrap();
        let s = score(&m, &name);
        if s >= threshold && plausible(&w) && is_pronounceable(&w, 1, 3) {
            expected.push((name, s));
        }
    }
    assert!(expected.len() > 10);
    // Dictionary order, and scores as the model gives them.
    assert_eq!(found(&m, &o, threshold), expected);
}

#[test]
fn a_high_threshold_leaves_nothing() {
    let o = ScanOpts { len: 6, min_syl: 1, max_syl: 4 };
    assert!(found(&model(), &o, 0.5).is_empty());
}

#[test]
fn syllables_are_constrained() {
    let m = model();
    let threshold = -1.9;
    let all = found(&m, &ScanOpts { len: 4, min_syl: 1, max_syl: 4 }, threshold);
    let two = found(&m, &ScanOpts { len: 4, min_syl: 2, max_syl: 2 }, threshold);
    assert!(two.len() < all.len());
    for (name, _) in &two {
        assert!(is_pronounceable(name.as_bytes(), 2, 2));
        assert!(all.iter().any(|(n, _)| n == name));
    }
}

#[test]
fn seven_letter_names_are_found() {
    let m = model();
    let names = found(&m, &ScanOpts { len: 7, min_syl: 2, max_syl: 4 }, -0.8);
    assert!(names.iter().any(|(n, _)| n == "voronoi"));
    for pair in names.windows(2) {
        assert!(pair[0].0 < pair[1].0);
    }
}
