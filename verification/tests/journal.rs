use bitter_dotcom_generator::answers::Verdict;
use bitter_dotcom_generator::check::Availability;
use bitter_dotcom_generator::journal::{
    candidate_row, fit_record, label, load_cache, load_fit_cache, load_judged, records, remember_fit,
    remember_verdict, selected_row, verdict_record, FitCache,
};
use bitter_dotcom_generator::keyed::KeyedMap;

fn described(name: &str, model: &str, prompt: &str, severity: u8) -> Verdict {
    Verdict {
        name: name.to_string(),
        tagline: String::new(),
        description: String::new(),
        rationale: String::new(),
        concerns: String::new(),
        model: model.to_string(),
        prompt: prompt.to_string(),
        severity,
    }
}

#[test]
fn blank_lines_are_no_records() {
    assert_eq!(records("a\n\n \t\nb\r\n"), vec!["a".to_string(), "b".to_string()]);
    assert!(records("").is_empty());
}

#[test]
fn records_of_verdicts() {
    assert_eq!(
        verdict_record("alpha", Availability::Free),
        "{\"name\":\"alpha\",\"verdict\":\"free\"}"
    );
    assert_eq!(
        verdict_record("a\"b\n\u{1}\\é", Availability::Unknown),
        "{\"name\":\"a\\\"b\\n\\u0001\\\\é\",\"verdict\":\"unknown\"}"
    );
    assert_eq!(label(Availability::Taken), "taken");
}

#[test]
fn every_character_is_written_as_the_parser_reads_it() {
    let name: String = (0u32..0x3000).filter_map(char::from_u32).collect();
    let line = verdict_record(&name, Availability::Taken);
    assert!(!line.contains('\n'));
    let v: serde_json::Value = serde_json::from_str(&line).unwrap();
    assert_eq!(v["name"].as_str(), Some(name.as_str()));
    // The documented escapes.
    let mut inside = String::new();
    for c in name.chars() {
        match c {
            '"' => inside.push_str("\\\""),
            '\\' => inside.push_str("\\\\"),
            '\u{8}' => inside.push_str("\\b"),
            '\t' => inside.push_str("\\t"),
            '\n' => inside.push_str("\\n"),
            '\u{c}' => inside.push_str("\\f"),
            '\r' => inside.push_str("\\r"),
            c if c < ' ' => inside.push_str(&format!("\\u{:04x}", c as u32)),
            c => inside.push(c),
        }
    }
    assert_eq!(line, format!("{{\"name\":\"{inside}\",\"verdict\":\"taken\"}}"));
}

#[test]
fn what_is_recorded_is_read_back() {
    let mut text = String::new();
    for (name, a) in [
        ("alpha", Availability::Taken),
        ("beta", Availability::Unknown),
        ("gamma", Availability::Free),
        ("alpha", Availability::Free),
        ("we\"ird\nname", Availability::Taken),
    ] {
        text.push_str(&verdict_record(name, a));
        text.push('\n');
    }
    let known = load_cache(&text).unwrap();
    assert_eq!(known.get(b"alpha"), Some(&Availability::Free)); // the last one counts
    assert_eq!(known.get(b"beta"), None); // asked again
    assert_eq!(known.get(b"gamma"), Some(&Availability::Free));
    assert_eq!(known.get(b"we\"ird\nname"), Some(&Availability::Taken));
    assert_eq!(known.get(b"delta"), None);
}

#[test]
fn unreadable_lines_are_reported() {
    let e = load_cache("{\"name\":\"a\",\"verdict\":\"free\"}\nnot json\n{").err().unwrap();
    assert_eq!(e.line, "not json");
    assert_eq!(e.message(), "unreadable cache line: not json");
    assert_eq!(e.reason, "expected ident at line 1 column 2");
    let e = load_fit_cache("{\"name\":", "m").err().unwrap();
    assert_eq!(e.line, "{\"name\":");
}

#[test]
fn incomplete_records_are_skipped() {
    let known = load_cache(
        "{\"name\":\"a\"}\n{\"verdict\":\"free\"}\n[]\n1\n{\"name\":3,\"verdict\":\"free\"}\n{\"name\":\"b\",\"verdict\":\"soon\"}\n",
    )
    .unwrap();
    assert!(known.is_empty());
    assert!(load_cache("").unwrap().is_empty());
}

#[test]
fn remembering_one_verdict() {
    let mut known: KeyedMap<Availability> = KeyedMap::new();
    let some = |s: &str| Some(s.to_string());
    remember_verdict(&mut known, some("a"), some("free"));
    remember_verdict(&mut known, some("b"), some("unknown"));
    remember_verdict(&mut known, None, some("taken"));
    remember_verdict(&mut known, some("c"), None);
    assert_eq!(known.get(b"a"), Some(&Availability::Free));
    assert!(!known.contains(b"b"));
    assert!(!known.contains(b"c"));
    remember_verdict(&mut known, some("a"), some("taken"));
    assert_eq!(known.get(b"a"), Some(&Availability::Taken));
}

#[test]
fn scores_are_keyed_by_model() {
    let text = "{\"name\":\"a\",\"fit\":7.5,\"model\":\"m\"}\n\
                {\"name\":\"b\",\"fit\":3,\"model\":\"other\"}\n\
                {\"name\":\"c\",\"fit\":4}\n\
                {\"name\":\"d\",\"model\":\"m\"}\n\
                {\"fit\":1,\"model\":\"m\"}\n\
                {\"name\":\"a\",\"fit\":-8,\"model\":\"m\"}\n";
    let cache = load_fit_cache(text, "m").unwrap();
    assert_eq!(cache.scores.get(b"a").map(|b| f64::from_bits(*b)), Some(-8.0));
    assert_eq!(cache.scores.get(b"b"), None);
    assert_eq!(cache.scores.get(b"c").map(|b| f64::from_bits(*b)), Some(4.0));
    assert_eq!(cache.scores.get(b"d"), None);
    assert_eq!(cache.other_models, 1);
    assert_eq!(cache.legacy, 1);
    let cache = load_fit_cache(text, "other").unwrap();
    assert_eq!(cache.scores.get(b"b").map(|b| f64::from_bits(*b)), Some(3.0));
    assert_eq!(cache.other_models, 2);
}

#[test]
fn recorded_scores_are_found_for_their_model_only() {
    let line = fit_record("al\"pha", "7.25", "m").unwrap();
    assert_eq!(line, "{\"fit\":7.25,\"model\":\"m\",\"name\":\"al\\\"pha\"}");
    let cache = load_fit_cache(&line, "m").unwrap();
    assert_eq!(cache.scores.get(b"al\"pha").map(|b| f64::from_bits(*b)), Some(7.25));
    assert!(load_fit_cache(&line, "n").unwrap().scores.is_empty());
    // Appended to other records, it changes nothing else.
    let before = "{\"name\":\"a\",\"fit\":1,\"model\":\"m\"}\n";
    let cache = load_fit_cache(&format!("{before}{line}\n"), "m").unwrap();
    assert_eq!(cache.scores.get(b"a").map(|b| f64::from_bits(*b)), Some(1.0));
    assert!(cache.scores.contains(b"al\"pha"));
}

#[test]
fn scores_are_written_as_given() {
    let close = f32::from_bits(1.0f32.to_bits() + 3);
    for fit in [0.0f32, 0.1, 7.3, close, 9.999999, 10.0, 1e-7, f32::MIN_POSITIVE] {
        let digits = serde_json::Value::from(fit).to_string();
        let line = fit_record("a", &digits, "m").unwrap();
        assert_eq!(line, format!("{{\"fit\":{digits},\"model\":\"m\",\"name\":\"a\"}}"));
        let cache = load_fit_cache(&line, "m").unwrap();
        let found = cache.scores.get(b"a").map(|b| f64::from_bits(*b) as f32);
        assert_eq!(found, Some(fit));
    }
    for digits in ["1.0000003576278687", "7", "-0.0", "1E-1", "1e+2", "1e308"] {
        let line = fit_record("a", digits, "m").unwrap();
        assert_eq!(line, format!("{{\"fit\":{digits},\"model\":\"m\",\"name\":\"a\"}}"));
    }
}

#[test]
fn only_numbers_are_scores() {
    let refused = [
        "", "x", "NaN", "\"7\"", "7 7", " 7", "07", "+7", "1e", ".5", "5.", "-", "1e309", "7,\"a\":7", "7\n",
    ];
    for digits in refused {
        assert_eq!(fit_record("a", digits, "m"), None, "{digits}");
    }
    assert_eq!(fit_record("a", &"9".repeat(400), "m"), None);
    assert!(fit_record("a", &"9".repeat(300), "m").is_some());
}

#[test]
fn remembering_one_score() {
    let mut cache = FitCache { scores: KeyedMap::new(), other_models: 0, legacy: 0 };
    let some = |s: &str| Some(s.to_string());
    remember_fit(&mut cache, some("a"), Some(1), some("m"), "m");
    remember_fit(&mut cache, some("b"), Some(2), some("x"), "m");
    remember_fit(&mut cache, some("c"), Some(3), None, "m");
    remember_fit(&mut cache, None, Some(4), None, "m");
    remember_fit(&mut cache, some("d"), None, some("x"), "m");
    assert_eq!(cache.scores.get(b"a"), Some(&1));
    assert_eq!(cache.scores.get(b"b"), None);
    assert_eq!(cache.scores.get(b"c"), Some(&3));
    assert_eq!((cache.other_models, cache.legacy), (1, 1));
}

#[test]
fn descriptions_are_keyed_by_model_and_prompt() {
    let rows = vec![
        described("a", "m", "p", 1),
        described("b", "m", "q", 1),
        described("c", "n", "p", 1),
        described("a", "m", "p", 4),
    ];
    let (map, stale) = load_judged(rows, "m", "p");
    assert_eq!(stale, 2);
    assert_eq!(map.get(b"a").map(|v| v.severity), Some(4));
    assert!(!map.contains(b"b"));
    assert!(!map.contains(b"c"));
}

#[test]
fn output_rows() {
    assert_eq!(candidate_row("alpha", "-1.2500"), "{\"name\":\"alpha\",\"score\":-1.2500}");
    assert_eq!(
        selected_row(0, "alpha", "7.5", 1),
        "{\"rank\":1,\"name\":\"alpha\",\"fit\":7.5,\"finalist\":true}"
    );
    assert_eq!(
        selected_row(11, "beta", "3", 11),
        "{\"rank\":12,\"name\":\"beta\",\"fit\":3,\"finalist\":false}"
    );
}
