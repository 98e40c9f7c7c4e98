use bitter_dotcom_generator::answers::{
    accept_triage, accept_verdicts, first_content, validate_response_names, AnswerError, Triage, Verdict,
};
use bitter_dotcom_generator::judge::prompt_id;

fn strings(list: &[&str]) -> Vec<String> {
    list.iter().map(|s| s.to_string()).collect()
}

fn verdict(name: &str, severity: u8) -> Verdict {
    Verdict {
        name: name.to_string(),
        tagline: format!("tagline of {name}"),
        description: format!("description of {name}"),
        rationale: format!("rationale of {name}"),
        concerns: format!("concerns about {name}"),
        model: "someone else".to_string(),
        prompt: "something else".to_string(),
        severity,
    }
}

fn message(received: &[&str], requested: &[&str]) -> String {
    validate_response_names(&strings(received), &strings(requested))
        .unwrap_err()
        .message()
}

#[test]
fn accepts_any_order() {
    assert!(validate_response_names(&strings(&["b", "a"]), &strings(&["a", "b"])).is_ok());
    assert!(validate_response_names(&[], &[]).is_ok());
}

#[test]
fn refusals_in_their_order() {
    assert_eq!(message(&["x"], &["a", "a"]), "the requested batch contains duplicate names");
    assert_eq!(message(&["a", "x", "a"], &["a", "b"]), "the response contains an unrequested name: x");
    assert_eq!(message(&["a", "a", "x"], &["a", "b"]), "duplicate name in the response: a");
    assert_eq!(
        message(&["c"], &["a", "b", "c"]),
        "incomplete response: 3 name(s) requested, 1 received"
    );
    assert_eq!(message(&["a"], &[]), "the response contains an unrequested name: a");
}

#[test]
fn scores_must_be_in_range() {
    let requested = strings(&["a", "b"]);
    let scored = |x: f32, y: f32| {
        vec![
            Triage { name: "b".to_string(), fit: x },
            Triage { name: "a".to_string(), fit: y },
        ]
    };
    let in_range = |fit: &f32| fit.is_finite() && (0.0..=10.0).contains(fit);
    assert!(accept_triage(&scored(0.0, 10.0), &requested, in_range).is_ok());
    match accept_triage(&scored(5.0, 10.5), &requested, in_range) {
        Err(e) => {
            assert!(matches!(&e, AnswerError::FitOutOfRange(1, n) if n == "a"));
            assert_eq!(e.message(), "score out of range for a");
        }
        Ok(_) => panic!("out of range"),
    }
    assert!(matches!(
        accept_triage(&scored(f32::NAN, -1.0), &requested, in_range),
        Err(AnswerError::FitOutOfRange(0, _))
    ));
}

#[test]
fn names_are_checked_before_scores() {
    let out = vec![Triage { name: "x".to_string(), fit: 99.0f32 }];
    assert!(matches!(
        accept_triage(&out, &strings(&["a"]), |_: &f32| false),
        Err(AnswerError::Unrequested(_))
    ));
}

#[test]
fn verdicts_are_signed() {
    let requested = strings(&["a", "b"]);
    let signed =
        accept_verdicts(vec![verdict("b", 1), verdict("a", 5)], &requested, "model", "brief").unwrap();
    assert_eq!(signed.len(), 2);
    for (v, (name, severity)) in signed.iter().zip([("b", 1), ("a", 5)]) {
        assert_eq!(v.name, name);
        assert_eq!(v.severity, severity);
        assert_eq!(v.tagline, format!("tagline of {name}"));
        assert_eq!(v.description, format!("description of {name}"));
        assert_eq!(v.rationale, format!("rationale of {name}"));
        assert_eq!(v.concerns, format!("concerns about {name}"));
        assert_eq!(v.model, "model");
        assert_eq!(v.prompt, prompt_id("model", "brief"));
    }
}

#[test]
fn severities_must_be_on_the_scale() {
    let requested = strings(&["a", "b"]);
    for severity in [0, 6, 255] {
        let r = accept_verdicts(vec![verdict("a", 3), verdict("b", severity)], &requested, "m", "x");
        assert_eq!(
            r.unwrap_err().message(),
            format!("severity out of range for b: {severity}")
        );
    }
    let r = accept_verdicts(vec![verdict("a", 0)], &requested, "m", "x");
    assert!(matches!(r, Err(AnswerError::Incomplete(2, 1))));
}

#[test]
fn the_first_choice_is_the_reply() {
    assert_eq!(first_content(vec![]), None);
    assert_eq!(first_content(strings(&["a"])), Some("a".to_string()));
    assert_eq!(first_content(strings(&["", "b"])), Some(String::new()));
}
