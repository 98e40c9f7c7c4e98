use bitter_dotcom_generator::answers::{accept_triage, validate_response_names, Triage};
use bitter_dotcom_generator::judge::{
    accept_address, after_failure, ask_request, choose_key, describe_system, endpoint, failure,
    frame_request, needs_key_file, permanent, prompt_id, resolve_base, triage_system, usable_key, Address,
    AfterFailure, Ending, Judge, JudgeError, KeyFile, Provider, ATTEMPTS, GAVE_UP,
};

fn in_range(fit: &f32) -> bool {
    fit.is_finite() && (0.0..=10.0).contains(fit)
}

fn names_of(list: &[Triage<f32>]) -> Vec<String> {
    list.iter().map(|t| t.name.clone()).collect()
}

#[test]
fn provider_defaults_are_isolated_in_caches() {
    assert_eq!(Provider::Openai.default_base(), "https://api.openai.com/v1");
    assert_eq!(Provider::Ollama.default_base(), "http://localhost:11434/v1");
    assert_eq!(
        Provider::Openai.cache_model("https://api.openai.com/v1", "example"),
        "example"
    );
    assert_eq!(
        Provider::Ollama.cache_model("http://localhost:11434/v1", "example"),
        "Ollama@http://localhost:11434/v1:example"
    );
}

#[test]
fn other_endpoints_have_their_own_caches() {
    assert_eq!(Provider::Openai.cache_model("https://proxy/v1", "m"), "Openai@https://proxy/v1:m");
    assert_eq!(
        Provider::Ollama.cache_model("https://api.openai.com/v1", "m"),
        "Ollama@https://api.openai.com/v1:m"
    );
    assert_ne!(
        Provider::Ollama.cache_model("http://a/v1", "m"),
        Provider::Ollama.cache_model("http://b/v1", "m")
    );
}

#[test]
fn default_models() {
    assert_eq!(Provider::Openai.default_triage_model(), "gpt-5.4-mini");
    assert_eq!(Provider::Openai.default_description_model(), "gpt-5.5");
    assert_eq!(Provider::Ollama.default_triage_model(), "gpt-oss:20b");
    assert_eq!(Provider::Ollama.default_description_model(), "gpt-oss:20b");
}

#[test]
fn ollama_client_does_not_require_an_openai_key() {
    let judge = Judge::new(
        Provider::Ollama,
        "http://localhost:11434/v1/",
        None,
        &KeyFile::NoHome,
    )
    .unwrap();
    assert_eq!(judge.api_url, "http://localhost:11434/v1/chat/completions");
    assert!(judge.key.is_none());
}

#[test]
fn rejects_partial_or_foreign_responses() {
    let requested = vec!["alpha".to_string(), "beta".to_string()];
    let partial = vec![Triage {
        name: "alpha".to_string(),
        fit: 5.0,
    }];
    assert!(validate_response_names(&names_of(&partial), &requested).is_err());
    assert!(accept_triage(&partial, &requested, in_range).is_err());

    let foreign = vec![
        Triage {
            name: "alpha".to_string(),
            fit: 5.0,
        },
        Triage {
            name: "gamma".to_string(),
            fit: 5.0,
        },
    ];
    assert!(validate_response_names(&names_of(&foreign), &requested).is_err());
    assert!(accept_triage(&foreign, &requested, in_range).is_err());
}

#[test]
fn endpoints_are_checked() {
    assert_eq!(endpoint("https://x.example/v1//").unwrap(), "https://x.example/v1/chat/completions");
    assert!(matches!(endpoint("///"), Err(JudgeError::EmptyBase)));
    assert!(matches!(endpoint("localhost"), Err(JudgeError::InvalidBase(_))));
    assert!(matches!(endpoint("ftp://x.example"), Err(JudgeError::NotHttp)));
    assert!(matches!(endpoint("http://user@x.example"), Err(JudgeError::Credentials)));
    assert!(matches!(endpoint("http://:secret@x.example"), Err(JudgeError::Credentials)));
    match endpoint("localhost") {
        Err(JudgeError::InvalidBase(said)) => assert_eq!(said, "relative URL without a base"),
        _ => panic!("no scheme"),
    }
}

#[test]
fn addresses_that_have_been_taken_apart() {
    let address = |scheme: &str, user: &str, password: Option<&str>| {
        Ok(Address {
            scheme: scheme.to_string(),
            username: user.to_string(),
            password: password.map(str::to_string),
        })
    };
    assert!(accept_address(address("http", "", None)).is_ok());
    assert!(accept_address(address("https", "", None)).is_ok());
    assert!(matches!(accept_address(address("HTTP", "", None)), Err(JudgeError::NotHttp)));
    assert!(matches!(accept_address(address("http", "u", None)), Err(JudgeError::Credentials)));
    assert!(matches!(accept_address(address("http", "", Some(""))), Err(JudgeError::Credentials)));
    assert!(matches!(accept_address(Err("bad".to_string())), Err(JudgeError::InvalidBase(e)) if e == "bad"));
}

#[test]
fn endpoint_comes_before_key() {
    let r = Judge::new(Provider::Openai, "", None, &KeyFile::NoHome);
    assert!(matches!(r, Err(JudgeError::EmptyBase)));
    let r = Judge::new(Provider::Openai, "https://api.openai.com/v1", None, &KeyFile::NoHome);
    assert!(matches!(r, Err(JudgeError::NoHome)));
}

#[test]
fn environment_takes_precedence() {
    let file = KeyFile::Read("/k".to_string(), " from-file \n".to_string());
    let key = |env: Option<&str>| choose_key(Provider::Openai, env, &file).unwrap();
    assert_eq!(key(Some(" from-env\n")), Some("from-env".to_string()));
    assert_eq!(key(Some("  ")), Some("from-file".to_string()));
    assert_eq!(key(None), Some("from-file".to_string()));
    // Ollama never looks at the file.
    assert_eq!(choose_key(Provider::Ollama, None, &file).unwrap(), None);
    assert_eq!(
        choose_key(Provider::Ollama, Some("k"), &file).unwrap(),
        Some("k".to_string())
    );
    assert_eq!(usable_key(Some("\t")), None);
    assert!(needs_key_file(Provider::Openai, Some(" ")));
    assert!(needs_key_file(Provider::Openai, None));
    assert!(!needs_key_file(Provider::Openai, Some("k")));
    assert!(!needs_key_file(Provider::Ollama, None));
    assert_eq!(Provider::Openai.key_variable(), "OPENAI_API_KEY");
    assert_eq!(Provider::Ollama.key_variable(), "OLLAMA_API_KEY");
}

#[test]
fn missing_keys_are_explained() {
    let r = choose_key(Provider::Openai, None, &KeyFile::Unreadable("/k".to_string()));
    assert_eq!(
        r.unwrap_err().message(),
        "no key found: neither OPENAI_API_KEY in the environment nor /k"
    );
    let r = choose_key(
        Provider::Openai,
        None,
        &KeyFile::Read("/k".to_string(), "\n".to_string()),
    );
    assert_eq!(r.unwrap_err().message(), "/k is empty");
    assert_eq!(JudgeError::NoHome.message(), "HOME is unavailable");
    assert_eq!(JudgeError::EmptyBase.message(), "API base URL cannot be empty");
    assert_eq!(JudgeError::NotHttp.message(), "API base URL must use HTTP or HTTPS");
    assert_eq!(
        JudgeError::Credentials.message(),
        "API credentials must not be embedded in the URL"
    );
    assert_eq!(JudgeError::InvalidBase("x".to_string()).message(), "invalid API base URL");
}

#[test]
fn bases_are_resolved() {
    assert_eq!(
        resolve_base(Provider::Openai, None).unwrap(),
        "https://api.openai.com/v1"
    );
    assert_eq!(resolve_base(Provider::Ollama, Some("http://h/v1/")).unwrap(), "http://h/v1");
    assert_eq!(resolve_base(Provider::Ollama, Some("/")), None);
}

#[test]
fn prompts_hold_the_brief() {
    let d = describe_system("BRIEF");
    assert!(d.starts_with("You are naming a company. Here is the brief:\n\nBRIEF\n\nFor each candidate name, write:"));
    assert!(d.ends_with("\"severity\": 1}]}, one entry per name given."));
    assert_eq!(d.len(), 2724);
    let t = triage_system("BRIEF");
    assert!(t.starts_with("You rate candidate brand names for a company. Here is the company brief:\n\nBRIEF\n\nFor each name,"));
    assert!(t.ends_with("{\"results\": [{\"name\": \"...\", \"fit\": 0.0}]}, one entry per name given, no commentary."));
    assert_eq!(t.len(), 482);
}

#[test]
fn fingerprints() {
    assert_eq!(prompt_id("gpt-5.5", "A database company."), "1576076b6c9beb34");
    assert_eq!(prompt_id("", ""), "a26efd08fadcf663");
    assert_ne!(prompt_id("gpt-5.5", "x"), prompt_id("gpt-5.5", "y"));
    assert_ne!(prompt_id("a", "x"), prompt_id("b", "x"));
}

#[test]
fn requests_are_json() {
    let names = vec!["alpha".to_string(), "beta".to_string()];
    let body = ask_request("m\"1", "line\nline", &names, None);
    assert_eq!(
        body,
        "{\"messages\":[{\"content\":\"line\\nline\",\"role\":\"system\"},\
         {\"content\":\"alpha\\nbeta\",\"role\":\"user\"}],\"model\":\"m\\\"1\",\
         \"response_format\":{\"type\":\"json_object\"}}"
    );
    let parsed: serde_json::Value = serde_json::from_str(&body).unwrap();
    assert_eq!(parsed["model"], "m\"1");
    assert_eq!(parsed["messages"][1]["content"], "alpha\nbeta");
    let body = ask_request("m", "s", &names, Some("0.5"));
    let parsed: serde_json::Value = serde_json::from_str(&body).unwrap();
    assert_eq!(parsed["temperature"], 0.5);
    assert_eq!(
        frame_request("\"m\"", "\"s\"", "\"u\"", Some("1")),
        "{\"messages\":[{\"content\":\"s\",\"role\":\"system\"},{\"content\":\"u\",\"role\":\"user\"}],\
         \"model\":\"m\",\"response_format\":{\"type\":\"json_object\"},\"temperature\":1}"
    );
}

#[test]
fn failures_are_classified() {
    assert_eq!(failure(200, "200 OK", "x"), None);
    assert_eq!(failure(299, "299", "insufficient_quota"), None);
    assert_eq!(
        failure(500, "500 Internal Server Error", "oops").unwrap(),
        "the API returned 500 Internal Server Error: oops"
    );
    for s in [400, 401, 403, 404] {
        let m = failure(s, "no", "body").unwrap();
        assert_eq!(m, "[permanent] the API returned no: body");
        assert!(permanent(&m));
    }
    assert!(permanent(&failure(429, "429", "code: insufficient_quota").unwrap()));
    assert!(permanent(&failure(402, "402", "see billing").unwrap()));
    assert!(!permanent(&failure(429, "429", "slow down").unwrap()));
}

#[test]
fn retries_are_bounded() {
    assert_eq!(after_failure(0, "timeout"), AfterFailure::RetryAfter(10));
    assert_eq!(after_failure(1, "timeout"), AfterFailure::RetryAfter(20));
    assert_eq!(after_failure(2, "timeout"), AfterFailure::GiveUp);
    for attempt in 0..3 {
        assert_eq!(after_failure(attempt, "x [permanent] y"), AfterFailure::Stop);
    }
}

fn ending(outcomes: &[Option<&str>]) -> (Option<Ending>, usize) {
    let mut attempt = 0;
    for (made, outcome) in outcomes.iter().enumerate() {
        let step = match outcome {
            None => return (Some(Ending::Answered(attempt)), made + 1),
            Some(message) => after_failure(attempt, message),
        };
        match step {
            AfterFailure::Stop => return (Some(Ending::Refused(attempt)), made + 1),
            AfterFailure::GiveUp => return (Some(Ending::GivenUp(attempt)), made + 1),
            AfterFailure::RetryAfter(_) => attempt += 1,
        }
    }
    (None, outcomes.len())
}

#[test]
fn requests_end_within_three_attempts() {
    let lost = Some("timeout");
    let refused = Some("[permanent] no");
    assert_eq!(ending(&[None, None]), (Some(Ending::Answered(0)), 1));
    assert_eq!(ending(&[lost, None, None]), (Some(Ending::Answered(1)), 2));
    assert_eq!(ending(&[lost, lost, None, lost]), (Some(Ending::Answered(2)), 3));
    assert_eq!(ending(&[refused, None]), (Some(Ending::Refused(0)), 1));
    assert_eq!(ending(&[lost, lost, refused]), (Some(Ending::Refused(2)), 3));
    assert_eq!(ending(&[lost, lost, lost, None]), (Some(Ending::GivenUp(2)), 3));
    assert_eq!(ending(&[lost, lost]), (None, 2));
    assert_eq!(ATTEMPTS, 3);
    assert_eq!(GAVE_UP, "three unsuccessful attempts");
}
