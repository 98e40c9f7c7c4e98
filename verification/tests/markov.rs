use bitter_dotcom_generator::markov::{Markov, ALPHA, BOUND};
use bitter_dotcom_generator::model::{load_model, CorpusError};

fn strings(list: &[&str]) -> Vec<String> {
    list.iter().map(|s| s.to_string()).collect()
}

fn base(count: u32, total: u64) -> f32 {
    (count + 1) as f32 / (total + 27) as f32
}

fn mix(count: u32, mass: u64, diversity: u32, lower: f32) -> f32 {
    (count as f32 + diversity as f32 * lower) / (mass as f32 + diversity as f32)
}

fn trained(words: &[&str]) -> Markov<f32> {
    Markov::train(&strings(words), base, mix, |p: f32| p.ln())
}

fn score(m: &Markov<f32>, word: &str) -> f32 {
    m.score(word, 0.0, |a: f32, b: f32| a + b, |t: f32, n: usize| t / n as f32)
}

fn close(a: f32, b: f32) -> bool {
    (a - b).abs() < 1e-5
}

#[test]
fn context_numbers() {
    assert_eq!(Markov::<f32>::ctx(0, 0, 0), 0);
    assert_eq!(Markov::<f32>::ctx(1, 2, 3), (27 + 2) * 27 + 3);
    assert_eq!(
        Markov::<f32>::ctx(BOUND, BOUND, BOUND),
        ALPHA * ALPHA * ALPHA - 1
    );
}

#[test]
fn advancing_drops_the_oldest_symbol() {
    let ctx = Markov::<f32>::ctx(1, 2, 3);
    assert_eq!(
        Markov::<f32>::advance(ctx, 4),
        Markov::<f32>::ctx(2, 3, 4)
    );
}

#[test]
fn smoothing_on_one_word() {
    let m = trained(&["ab"]);
    // Order 0: (1 + 1) / (3 + 27). Each order above it halves the distance to one.
    let p0 = 2.0f32 / 30.0;
    let p1 = (1.0 + p0) / 2.0;
    let p2 = (1.0 + p1) / 2.0;
    let p3 = (1.0 + p2) / 2.0;
    let start = Markov::<f32>::ctx(BOUND, BOUND, BOUND);
    assert!(close(m.logp(start, 0), p3.ln()));
    assert!(close(score(&m, "ab"), p3.ln()));
}

#[test]
fn unseen_contexts_delegate_to_the_lowest_order() {
    let m = trained(&["ab"]);
    let zzz = Markov::<f32>::ctx(25, 25, 25);
    assert!(close(m.logp(zzz, 0), (2.0f32 / 30.0).ln()));
    assert!(close(m.logp(zzz, 9), (1.0f32 / 30.0).ln()));
}

#[test]
fn probabilities_of_a_context_add_up() {
    let m = trained(&["voronoi", "centroid", "fractal", "delaunay"]);
    for ctx in [0usize, 17, 729, 19682] {
        let sum: f32 = (0..27u8).map(|s| m.logp(ctx, s).exp()).sum();
        assert!((sum - 1.0).abs() < 1e-3);
    }
}

#[test]
fn score_averages_all_transitions() {
    let m = trained(&["voronoi", "centroid"]);
    let mut ctx = Markov::<f32>::ctx(BOUND, BOUND, BOUND);
    let mut total = 0.0f32;
    for b in "voro".bytes() {
        total += m.logp(ctx, b - b'a');
        ctx = Markov::<f32>::advance(ctx, b - b'a');
    }
    total += m.logp(ctx, BOUND);
    assert!(close(score(&m, "voro"), total / 5.0));
    assert!(score(&m, "voronoi") > score(&m, "xqzkjwv"));
}

#[test]
fn counts_reach_the_arithmetic() {
    // Cells are the counts of transitions when `mix` ignores everything else.
    let m: Markov<u64> = Markov::train(
        &strings(&["aa", "aa"]),
        |_: u32, _: u64| 0,
        |c: u32, n: u64, t: u32, _: u64| c as u64 * 10_000 + n * 100 + t as u64,
        |p: u64| p,
    );
    // After ^^^ comes an `a`, twice out of two, one continuation.
    assert_eq!(m.logp(Markov::<u64>::ctx(BOUND, BOUND, BOUND), 0), 20_201);
    assert_eq!(m.logp(Markov::<u64>::ctx(BOUND, 0, 0), BOUND), 20_201);
    // Never seen after ^^^, but the context was seen.
    assert_eq!(m.logp(Markov::<u64>::ctx(BOUND, BOUND, BOUND), 1), 201);
    // Order 1 after `a`: twice `a`, twice the end.
    assert_eq!(m.logp(Markov::<u64>::ctx(5, 5, 0), BOUND), 20_402);
}

#[test]
fn load_model_reads_the_seeds() {
    let (m, words) = load_model("voronoi\n\n  fractal  \nNot\nx1\n", base, mix, |p: f32| p.ln())
        .expect("two seeds");
    assert_eq!(words, strings(&["voronoi", "fractal"]));
    assert!(close(score(&m, "voronoi"), score(&trained(&["voronoi", "fractal"]), "voronoi")));
}

#[test]
fn load_model_rejects_an_empty_corpus() {
    let r = load_model("UPPER\n\n123\n", base, mix, |p: f32| p.ln());
    match r {
        Err(e) => {
            assert_eq!(e, CorpusError::Empty);
            assert_eq!(e.message(), "empty corpus");
        }
        Ok(_) => panic!("no seed"),
    }
    assert_eq!(CorpusError::TooLarge.message(), "the corpus is too large");
}

#[test]
fn the_order_of_the_corpus_does_not_matter() {
    let a = trained(&["voronoi", "centroid", "fractal", "voronoi"]);
    let b = trained(&["fractal", "voronoi", "voronoi", "centroid"]);
    for ctx in 0..27 * 27 * 27 {
        for next in 0..27u8 {
            assert_eq!(a.logp(ctx, next).to_bits(), b.logp(ctx, next).to_bits());
        }
    }
}
