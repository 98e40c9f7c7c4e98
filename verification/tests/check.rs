use bitter_dotcom_generator::check::{
    period_nanos, rdap_url, react, Action, Availability, RateError, Reaction, Reply, Window,
};

fn strings(list: &[&str]) -> Vec<String> {
    list.iter().map(|s| s.to_string()).collect()
}

#[test]
fn statuses_and_their_meaning() {
    for attempt in 0..3 {
        assert_eq!(react(attempt, Reply::Status(404)), Reaction::Answer(Availability::Free));
        for s in [200, 204, 299] {
            assert_eq!(react(attempt, Reply::Status(s)), Reaction::Answer(Availability::Taken));
        }
        for s in [100, 199, 300, 302, 400, 403, 428, 430, 499, 600] {
            assert_eq!(react(attempt, Reply::Status(s)), Reaction::Answer(Availability::Unknown));
        }
    }
}

#[test]
fn waits_grow_exponentially() {
    for s in [429, 500, 503, 599] {
        assert_eq!(react(0, Reply::Status(s)), Reaction::RetryAfter(2));
        assert_eq!(react(1, Reply::Status(s)), Reaction::RetryAfter(4));
        assert_eq!(react(2, Reply::Status(s)), Reaction::GiveUpAfter(8));
    }
    assert_eq!(react(0, Reply::Failed), Reaction::RetryAfter(1));
    assert_eq!(react(1, Reply::Failed), Reaction::RetryAfter(2));
    assert_eq!(react(2, Reply::Failed), Reaction::GiveUpAfter(4));
}

#[test]
fn address_of_a_name() {
    assert_eq!(rdap_url("alpha"), "https://rdap.verisign.com/com/v1/domain/alpha.com");
}

#[test]
fn delivers_results_before_scheduling_the_entire_list() {
    let names = strings(&["alpha", "beta", "gamma"]);
    let mut window = Window::new(names, 10_000, 2).unwrap();
    let mut started = Vec::new();
    let mut delivered = 0;
    loop {
        match window.next() {
            Action::Start(name) => {
                started.push(name);
                window.on_started();
            }
            Action::Collect => {
                delivered += 1;
                if delivered == 1 {
                    assert!(started.len() < 3);
                }
                window.on_delivered();
            }
            Action::Finish => break,
        }
        assert!(started.len() - delivered <= 2);
    }
    assert_eq!(delivered, 3);
    assert_eq!(started, strings(&["alpha", "beta", "gamma"]));
}

#[test]
fn rejects_zero_concurrency() {
    assert!(Window::new(Vec::new(), 1, 0).is_err());
}

#[test]
fn rejected_settings_are_named() {
    let e = Window::new(Vec::new(), 0, 0).err().unwrap();
    assert_eq!(e, RateError::ZeroRate);
    assert_eq!(e.message(), "rate must be greater than zero");
    let e = Window::new(Vec::new(), 1, 0).err().unwrap();
    assert_eq!(e, RateError::ZeroConcurrency);
    assert_eq!(e.message(), "concurrency must be greater than zero");
}

#[test]
fn nothing_to_check_finishes_at_once() {
    let window = Window::new(Vec::new(), 1, 1).unwrap();
    assert!(matches!(window.next(), Action::Finish));
}

#[test]
fn a_lost_rate_limiter_ends_the_check() {
    let mut window = Window::new(strings(&["alpha", "beta"]), 1, 2).unwrap();
    assert!(matches!(window.next(), Action::Start(n) if n == "alpha"));
    window.on_started();
    assert!(matches!(window.next(), Action::Start(n) if n == "beta"));
    window.on_closed();
    // What is in flight is still delivered.
    assert!(matches!(window.next(), Action::Collect));
    window.on_delivered();
    assert!(matches!(window.next(), Action::Finish));
}

fn verdict_after(replies: &[Reply]) -> Option<Availability> {
    for (attempt, reply) in replies.iter().enumerate() {
        match react(attempt as u32, *reply) {
            Reaction::Answer(a) => return Some(a),
            Reaction::GiveUpAfter(_) => return Some(Availability::Unknown),
            Reaction::RetryAfter(_) => {}
        }
    }
    None
}

#[test]
fn only_a_404_makes_a_name_free() {
    assert_eq!(verdict_after(&[Reply::Failed, Reply::Status(503), Reply::Status(404)]), Some(Availability::Free));
    assert_eq!(verdict_after(&[Reply::Failed, Reply::Status(200)]), Some(Availability::Taken));
    assert_eq!(verdict_after(&[Reply::Status(302), Reply::Status(404)]), Some(Availability::Unknown));
    assert_eq!(verdict_after(&[Reply::Failed, Reply::Failed, Reply::Failed]), Some(Availability::Unknown));
    assert_eq!(verdict_after(&[Reply::Status(429)]), None);
}

#[test]
fn periods_never_exceed_the_rate() {
    assert_eq!(period_nanos(1), 1_000_000_000);
    assert_eq!(period_nanos(20), 50_000_000);
    assert_eq!(period_nanos(3), 333_333_334);
    assert_eq!(period_nanos(999_999_999), 2);
    assert_eq!(period_nanos(1_000_000_000), 1);
    assert_eq!(period_nanos(u32::MAX), 1);
    for rate in [1u32, 7, 20, 1000, 600_000_000, u32::MAX] {
        assert!(period_nanos(rate) as u128 * rate as u128 >= 1_000_000_000);
    }
}
