use bitter_dotcom_generator::syllable::{is_pronounceable, plausible};

#[test]
fn accepts_a_simple_segmentation() {
    assert!(is_pronounceable(b"voronoi", 3, 4));
}

#[test]
fn long_words_do_not_overflow_the_dynamic_program() {
    assert!(!is_pronounceable(b"bcdfghjklmnpqrstvwxyz", 1, 4));
}

#[test]
fn counts_syllables() {
    assert!(is_pronounceable(b"ban", 1, 1));
    assert!(!is_pronounceable(b"ban", 2, 4));
    assert!(is_pronounceable(b"banana", 3, 3));
    assert!(!is_pronounceable(b"banana", 1, 2));
    assert!(is_pronounceable(b"quiver", 2, 2));
    assert!(is_pronounceable(b"strand", 1, 1));
}

#[test]
fn empty_onset_only_at_the_start() {
    assert!(is_pronounceable(b"ana", 2, 2));
    // "ao" is no nucleus, and the second vowel may not begin a syllable.
    assert!(!is_pronounceable(b"bao", 1, 4));
}

#[test]
fn counts_beyond_four_syllables() {
    assert!(is_pronounceable(b"bananana", 4, 4));
    assert!(is_pronounceable(b"banananana", 5, 5));
    assert!(is_pronounceable(b"banananana", 1, 9));
    assert!(!is_pronounceable(b"banananana", 1, 4));
    assert!(!is_pronounceable(b"banananana", 6, 9));
    assert!(is_pronounceable(b"banana", 0, usize::MAX));
}

#[test]
fn an_empty_range_accepts_nothing() {
    assert!(!is_pronounceable(b"banana", 4, 3));
    assert!(!is_pronounceable(b"banana", 9, 12));
    assert!(!is_pronounceable(b"banana", usize::MAX, usize::MAX));
}

#[test]
fn the_empty_word_has_no_syllable() {
    assert!(!is_pronounceable(b"", 1, 4));
    assert!(is_pronounceable(b"", 0, 4));
}

#[test]
fn ninety_syllables_are_not_mistaken_for_fewer() {
    let long: Vec<u8> = b"ba".iter().copied().cycle().take(180).collect();
    assert!(!is_pronounceable(&long, 1, 4));
    assert!(!is_pronounceable(&long, 1, 89));
    assert!(is_pronounceable(&long, 90, 90));
}

#[test]
fn plausible_counts_vowels() {
    assert!(!plausible(b"banths"));
    assert!(plausible(b"banana"));
    assert!(plausible(b"bananaba"));
    assert!(!plausible(b"banananaba"));
    assert!(!plausible(b""));
}

#[test]
fn plausible_rejects_runs() {
    assert!(!plausible(b"abcdfa")); // four consonants in a row
    assert!(plausible(b"abcda")); // three
    assert!(!plausible(b"baaab")); // three equal letters
    assert!(plausible(b"baab"));
    assert!(plausible(b"syzygy")); // y counts as a vowel
    assert!(plausible(b"\0\0aba")); // two equal bytes are two, also at the start
    assert!(!plausible(b"aaab"));
}
