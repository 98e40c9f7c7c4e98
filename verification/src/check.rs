//! Decisions of the availability check: what an answer of the registry means,
//! when to ask again, and how many requests may be in flight.
//!
//! The registry is asked through Verisign RDAP: a documented, authoritative
//! public service that requires no registration. The requests themselves are
//! made by the caller, which reports what came back and is told what to do next.

use crate::text;
use vstd::prelude::*;

verus! {

/// What is known of a domain.
#[derive(Debug, Clone, Copy, PartialEq, Eq, Structural)]
pub enum Availability {
    Free,
    Taken,
    /// Unusable response (outage, quota, unexpected format). Never treated as
    /// available: a false positive here would be costly at the end of the pipeline.
    Unknown,
}

/// What a request came back with.
#[derive(Debug, Clone, Copy, PartialEq, Eq, Structural)]
pub enum Reply {
    /// An HTTP status.
    Status(u16),
    /// No response at all.
    Failed,
}

/// What to do after a reply.
#[derive(Debug, Clone, Copy, PartialEq, Eq, Structural)]
pub enum Reaction {
    /// The answer is known.
    Answer(Availability),
    /// Wait for so many seconds, then ask again.
    RetryAfter(u64),
    /// Wait for so many seconds, then give the name up as unknown.
    GiveUpAfter(u64),
}

/// Number of requests made for one name before it is given up.
pub const ATTEMPTS: u32 = 3;

/// What a status says of the domain; `None` when it is worth asking again.
pub open spec fn meaning(status: u16) -> Option<Availability> {
    if status == 404 {
        Some(Availability::Free)
    } else if 200 <= status <= 299 {
        Some(Availability::Taken)
    } else if status == 429 || 500 <= status <= 599 {
        None
    } else {
        Some(Availability::Unknown)
    }
}

/// Two to the power of `n`.
pub open spec fn power(n: nat) -> nat
    decreases n,
{
    if n == 0 {
        1
    } else {
        2 * power((n - 1) as nat)
    }
}

/// How long to wait after attempt number `attempt`, counted from zero. The quota
/// may reopen, so a refusal is waited out longer than a lost connection.
pub open spec fn pause(attempt: nat, reply: Reply) -> nat {
    match reply {
        Reply::Status(_) => power(attempt + 1),
        Reply::Failed => power(attempt),
    }
}

/// What to do after the reply to attempt number `attempt`.
pub open spec fn reaction(attempt: u32, reply: Reply) -> Reaction {
    let answer = match reply {
        Reply::Status(status) => meaning(status),
        Reply::Failed => None,
    };
    match answer {
        Some(a) => Reaction::Answer(a),
        None => {
            let seconds = pause(attempt as nat, reply) as u64;
            if attempt + 1 < ATTEMPTS {
                Reaction::RetryAfter(seconds)
            } else {
                Reaction::GiveUpAfter(seconds)
            }
        },
    }
}

/// Decides what to do after the reply to attempt number `attempt`, counted from
/// zero. Repeated requests wait exponentially longer.
pub fn react(attempt: u32, reply: Reply) -> (r: Reaction)
    requires
        attempt < ATTEMPTS,
    ensures
        r == reaction(attempt, reply),
{
    proof {
        reveal_with_fuel(power, 4);
        assert(power(0) == 1 && power(1) == 2 && power(2) == 4 && power(3) == 8);
    }
    let base: u64 = if attempt == 0 {
        1
    } else if attempt == 1 {
        2
    } else {
        4
    };
    let seconds: u64 = match reply {
        Reply::Status(status) => {
            if status == 404 {
                return Reaction::Answer(Availability::Free);
            }
            if 200 <= status && status <= 299 {
                return Reaction::Answer(Availability::Taken);
            }
            if !(status == 429 || (500 <= status && status <= 599)) {
                return Reaction::Answer(Availability::Unknown);
            }
            2 * base
        },
        Reply::Failed => base,
    };
    if attempt + 1 < ATTEMPTS {
        Reaction::RetryAfter(seconds)
    } else {
        Reaction::GiveUpAfter(seconds)
    }
}

/// The verdict on a name whose requests, from number `attempt` on, come back
/// with `replies`; `None` while more replies are needed.
pub open spec fn verdict(attempt: u32, replies: Seq<Reply>) -> Option<Availability>
    decreases replies.len(),
{
    if replies.len() == 0 {
        None
    } else {
        match reaction(attempt, replies[0]) {
            Reaction::Answer(a) => Some(a),
            Reaction::GiveUpAfter(_) => Some(Availability::Unknown),
            Reaction::RetryAfter(_) => verdict((attempt + 1) as u32, replies.drop_first()),
        }
    }
}

/// The replies before `i` are all worth asking again.
pub open spec fn undecided_before(replies: Seq<Reply>, i: int) -> bool {
    forall|j: int|
        0 <= j < i ==> match #[trigger] replies[j] {
            Reply::Status(status) => meaning(status) is None,
            Reply::Failed => true,
        }
}

/// A name counts as free only when the registry said that it does not know the
/// domain: within the attempts made, some reply is a 404, and every reply before
/// it was worth asking again. Outages, quotas and lost connections never make a
/// name free.
pub proof fn free_only_when_not_found(replies: Seq<Reply>, attempt: u32)
    requires
        attempt < ATTEMPTS,
    ensures
        verdict(attempt, replies) == Some(Availability::Free) <==> exists|i: int|
            0 <= i < replies.len() && i < ATTEMPTS - attempt && #[trigger] replies[i]
                == Reply::Status(404) && undecided_before(replies, i),
    decreases replies.len(),
{
    let found = |i: int|
        0 <= i < replies.len() && i < ATTEMPTS - attempt && replies[i] == Reply::Status(404)
            && undecided_before(replies, i);
    if replies.len() > 0 {
        let rest = replies.drop_first();
        match reaction(attempt, replies[0]) {
            Reaction::Answer(a) => {
                if a == Availability::Free {
                    assert(replies[0] == Reply::Status(404));
                    assert(undecided_before(replies, 0));
                }
                assert forall|i: int| #[trigger] found(i) implies i == 0 by {
                    if i > 0 {
                        assert(match replies[0] {
                            Reply::Status(status) => meaning(status) is None,
                            Reply::Failed => true,
                        });
                    }
                }
            },
            Reaction::GiveUpAfter(_) => {
                assert forall|i: int| #[trigger] found(i) implies false by {}
            },
            Reaction::RetryAfter(_) => {
                let next = (attempt + 1) as u32;
                free_only_when_not_found(rest, next);
                if verdict(next, rest) == Some(Availability::Free) {
                    let i = choose|i: int|
                        0 <= i < rest.len() && i < ATTEMPTS - next && #[trigger] rest[i]
                            == Reply::Status(404) && undecided_before(rest, i);
                    assert(replies[i + 1] == rest[i]);
                    assert forall|j: int| 0 <= j < i + 1 implies match #[trigger] replies[j] {
                        Reply::Status(status) => meaning(status) is None,
                        Reply::Failed => true,
                    } by {
                        if j > 0 {
                            assert(replies[j] == rest[j - 1]);
                        }
                    }
                }
                if exists|i: int| #[trigger] found(i) {
                    let i = choose|i: int| #[trigger] found(i);
                    assert(i > 0);
                    assert(rest[i - 1] == replies[i]);
                    assert(undecided_before(rest, i - 1)) by {
                        assert forall|j: int| 0 <= j < i - 1 implies match #[trigger] rest[j] {
                            Reply::Status(status) => meaning(status) is None,
                            Reply::Failed => true,
                        } by {
                            assert(rest[j] == replies[j + 1]);
                        }
                    }
                }
            },
        }
    }
    if exists|i: int|
        0 <= i < replies.len() && i < ATTEMPTS - attempt && #[trigger] replies[i] == Reply::Status(
            404,
        ) && undecided_before(replies, i) {
        let i = choose|i: int|
            0 <= i < replies.len() && i < ATTEMPTS - attempt && #[trigger] replies[i]
                == Reply::Status(404) && undecided_before(replies, i);
        assert(found(i));
    }
}

/// Address at which the registry answers for a name.
pub fn rdap_url(name: &str) -> (r: String)
    ensures
        r@ == "https://rdap.verisign.com/com/v1/domain/"@ + name@ + ".com"@,
{
    let mut r = "https://rdap.verisign.com/com/v1/domain/".to_owned();
    r.append(name);
    r.append(".com");
    r
}

/// Why a check cannot start.
#[derive(Debug, Clone, Copy, PartialEq, Eq, Structural)]
pub enum RateError {
    ZeroRate,
    ZeroConcurrency,
}

impl RateError {
    /// The error in words.
    pub fn message(&self) -> (r: &'static str)
        ensures
            r@ == match self {
                RateError::ZeroRate => "rate must be greater than zero"@,
                RateError::ZeroConcurrency => "concurrency must be greater than zero"@,
            },
    {
        match self {
            RateError::ZeroRate => "rate must be greater than zero",
            RateError::ZeroConcurrency => "concurrency must be greater than zero",
        }
    }
}

/// The next thing to do in a check of many names.
pub enum Action {
    /// Wait for the rate limiter, then start the request for this name.
    Start(String),
    /// Wait for one result.
    Collect,
    /// Every request that was started has been delivered, and no more can be
    /// started: the list is done, or the rate limiter is gone.
    Finish,
}

/// A small window of requests over a list of names. Concurrency bounds the
/// number of requests in flight; their frequency is bounded by the rate limiter
/// for which `Start` waits.
pub struct Window {
    names: Vec<String>,
    started: usize,
    delivered: usize,
    concurrency: usize,
    closed: bool,
}

impl Window {
    /// The names to check, in order.
    pub closed spec fn names(&self) -> Seq<Seq<char>> {
        text::texts(self.names@)
    }

    /// Number of requests started so far: those of the first names.
    pub closed spec fn started(&self) -> nat {
        self.started as nat
    }

    /// Number of results delivered so far.
    pub closed spec fn delivered(&self) -> nat {
        self.delivered as nat
    }

    /// Largest number of requests in flight.
    pub closed spec fn concurrency(&self) -> nat {
        self.concurrency as nat
    }

    /// The rate limiter is gone: nothing more can be started.
    pub closed spec fn is_closed(&self) -> bool {
        self.closed
    }

    /// Results come only from requests, requests only from names, and never more
    /// requests than allowed are in flight.
    #[verifier::type_invariant]
    pub open spec fn wf(&self) -> bool {
        &&& self.delivered() <= self.started() <= self.names().len()
        &&& self.started() - self.delivered() <= self.concurrency()
        &&& self.concurrency() > 0
    }

    /// A request may be started now.
    pub open spec fn can_start(&self) -> bool {
        &&& !self.is_closed()
        &&& self.started() < self.names().len()
        &&& self.started() - self.delivered() < self.concurrency()
    }

    /// The same check, but for the numbers of requests and results.
    pub open spec fn continues(&self, before: Window) -> bool {
        &&& self.names() == before.names()
        &&& self.concurrency() == before.concurrency()
    }

    /// `after` is this check with one more request started, which was allowed.
    pub open spec fn is_start(&self, after: Window) -> bool {
        &&& self.can_start()
        &&& after.continues(*self)
        &&& after.started() == self.started() + 1
        &&& after.delivered() == self.delivered()
        &&& after.is_closed() == self.is_closed()
    }

    /// `after` is this check with one more result, of a request in flight.
    pub open spec fn is_delivery(&self, after: Window) -> bool {
        &&& self.delivered() < self.started()
        &&& after.continues(*self)
        &&& after.started() == self.started()
        &&& after.delivered() == self.delivered() + 1
        &&& after.is_closed() == self.is_closed()
    }

    /// `after` is this check without its rate limiter.
    pub open spec fn is_loss(&self, after: Window) -> bool {
        &&& after.continues(*self)
        &&& after.started() == self.started()
        &&& after.delivered() == self.delivered()
        &&& after.is_closed()
    }

    /// A check of `names` at `per_second` requests per second, `concurrency` of
    /// them at a time.
    pub fn new(names: Vec<String>, per_second: u32, concurrency: usize) -> (r: Result<
        Window,
        RateError,
    >)
        ensures
            match r {
                Ok(w) => {
                    &&& per_second > 0
                    &&& concurrency > 0
                    &&& w.wf()
                    &&& w.names() == text::texts(names@)
                    &&& w.started() == 0
                    &&& w.delivered() == 0
                    &&& w.concurrency() == concurrency
                    &&& !w.is_closed()
                },
                Err(RateError::ZeroRate) => per_second == 0,
                Err(RateError::ZeroConcurrency) => per_second > 0 && concurrency == 0,
            },
    {
        if per_second == 0 {
            return Err(RateError::ZeroRate);
        }
        if concurrency == 0 {
            return Err(RateError::ZeroConcurrency);
        }
        Ok(Window { names, started: 0, delivered: 0, concurrency, closed: false })
    }

    /// Decides what to do next: fill the window while it has room, then consume
    /// results one by one.
    pub fn next(&self) -> (r: Action)
        ensures
            match r {
                Action::Start(name) => self.can_start() && name@ == self.names()[
                    self.started() as int
                ],
                Action::Collect => !self.can_start() && self.delivered() < self.started(),
                Action::Finish => {
                    &&& !self.can_start()
                    &&& self.delivered() == self.started()
                    &&& self.is_closed() || self.started() == self.names().len()
                },
            },
    {
        proof {
            use_type_invariant(self);
        }
        let in_flight: usize = self.started - self.delivered;
        if !self.closed && self.started < self.names.len() && in_flight < self.concurrency {
            Action::Start(text::copy_text(self.names[self.started].as_str()))
        } else if in_flight > 0 {
            Action::Collect
        } else {
            Action::Finish
        }
    }

    /// The request that was to be started has been.
    pub fn on_started(&mut self)
        requires
            old(self).can_start(),
        ensures
            final(self).wf(),
            old(self).is_start(*final(self)),
    {
        proof {
            use_type_invariant(&*self);
        }
        assert(self.started < self.names.len());
        self.started = self.started + 1;
    }

    /// The rate limiter is gone.
    pub fn on_closed(&mut self)
        ensures
            final(self).wf(),
            old(self).is_loss(*final(self)),
    {
        proof {
            use_type_invariant(&*self);
        }
        self.closed = true;
    }

    /// A result has been delivered.
    pub fn on_delivered(&mut self)
        requires
            old(self).delivered() < old(self).started(),
        ensures
            final(self).wf(),
            old(self).is_delivery(*final(self)),
    {
        proof {
            use_type_invariant(&*self);
        }
        self.delivered = self.delivered + 1;
    }
}

/// Nanoseconds in a second.
pub const SECOND: u64 = 1_000_000_000;

/// Nanoseconds between two ticks of the rate limiter. They are rounded up, so that
/// the rate is never exceeded, and there is always at least one.
pub fn period_nanos(per_second: u32) -> (r: u64)
    requires
        per_second > 0,
    ensures
        r == (SECOND + per_second - 1) / per_second as int,
        r >= 1,
        r * per_second >= SECOND,
        (r - 1) * per_second < SECOND,
{
    let n = per_second as u64;
    let r: u64 = (SECOND + n - 1) / n;
    proof {
        let a = SECOND + n - 1;
        let d = n as int;
        vstd::arithmetic::div_mod::lemma_fundamental_div_mod(a, d);
        assert(a == d * (a / d) + a % d);
        assert(0 <= a % d < d);
        assert(r * per_second == d * (a / d)) by (nonlinear_arith)
            requires
                r == a / d,
                d == per_second,
        ;
        assert((r - 1) * per_second == r * per_second - per_second) by (nonlinear_arith);
        assert(r >= 1) by (nonlinear_arith)
            requires
                r * per_second >= SECOND,
                SECOND > 0,
        ;
    }
    r
}

/// The ticks come at least `period` nanoseconds apart, but for one that is late by
/// up to `slack` while the next one is not.
pub open spec fn are_spaced(ticks: Seq<int>, period: int, slack: int) -> bool {
    forall|i: int, j: int|
        0 <= i <= j < ticks.len() ==> #[trigger] ticks[j] - #[trigger] ticks[i] + slack >= (j - i)
            * period
}

/// Every request is started after the tick that it waited for, and the limiter
/// keeps at most two ticks back: the one after the next comes when the request has
/// been started.
pub open spec fn is_limited(ticks: Seq<int>, starts: Seq<int>) -> bool {
    &&& starts.len() <= ticks.len()
    &&& forall|i: int| 0 <= i < starts.len() ==> #[trigger] starts[i] >= ticks[i]
    &&& forall|i: int|
        0 <= i < starts.len() && i + 2 < ticks.len() ==> #[trigger] starts[i] <= ticks[i + 2]
}

/// The rate is bounded, and not only the number of requests in flight: in a stretch
/// of time, lengthened by the slack of the ticks, at most `per_second` requests for
/// every second, and three more, are started. Times are in nanoseconds.
pub proof fn the_rate_is_bounded(
    per_second: u32,
    period: u64,
    slack: nat,
    ticks: Seq<int>,
    starts: Seq<int>,
    i: int,
    j: int,
)
    requires
        period * per_second >= SECOND,
        are_spaced(ticks, period as int, slack as int),
        is_limited(ticks, starts),
        0 <= i <= j < starts.len(),
        starts[i] <= starts[j],
    ensures
        (j - i + 1 - 3) * SECOND <= per_second * (starts[j] - starts[i] + slack),
{
    let stretch = starts[j] - starts[i] + slack;
    let more = j - i - 2;
    assert(more * SECOND <= per_second * stretch) by {
        if more > 0 {
            assert(starts[i] <= ticks[i + 2]);
            assert(ticks[j] - ticks[i + 2] + slack >= (j - (i + 2)) * period);
            assert(starts[j] >= ticks[j]);
            assert(more * SECOND <= more * (period * per_second)) by (nonlinear_arith)
                requires
                    more > 0,
                    period * per_second >= SECOND,
            ;
            assert(more * (period * per_second) == per_second * (more * period)) by (nonlinear_arith);
            assert(per_second * (more * period) <= per_second * stretch) by (nonlinear_arith)
                requires
                    more * period <= stretch,
                    per_second >= 0,
            ;
        } else {
            assert(more * SECOND <= 0) by (nonlinear_arith)
                requires
                    more <= 0,
            ;
            assert(0 <= per_second * stretch) by (nonlinear_arith)
                requires
                    0 <= stretch,
                    per_second >= 0,
            ;
        }
    }
}

/// `run` is the history of a check: it begins as a new one, and goes on by
/// requests that may be started, results of requests in flight, and the loss of the
/// rate limiter.
pub open spec fn is_run(run: Seq<Window>) -> bool {
    &&& run.len() > 0
    &&& run[0].wf()
    &&& run[0].started() == 0
    &&& run[0].delivered() == 0
    &&& forall|i: int| 0 <= i < run.len() - 1 ==> #[trigger] goes_on_at(run, i)
}

/// The history goes on from `i` by one step.
pub open spec fn goes_on_at(run: Seq<Window>, i: int) -> bool {
    ||| run[i].is_start(run[i + 1])
    ||| run[i].is_delivery(run[i + 1])
    ||| run[i].is_loss(run[i + 1])
}

/// At every moment of a check at most `concurrency` requests are in flight, no
/// result comes without its request, and the list and the limit stay what they
/// were.
pub proof fn requests_in_flight_are_bounded(run: Seq<Window>, i: int)
    requires
        is_run(run),
        0 <= i < run.len(),
    ensures
        run[i].wf(),
        run[i].continues(run[0]),
        0 <= run[i].started() - run[i].delivered() <= run[0].concurrency(),
    decreases i,
{
    if i > 0 {
        requests_in_flight_are_bounded(run, i - 1);
        assert(goes_on_at(run, i - 1));
    }
}

/// Results come before the whole list is scheduled: with fewer places than
/// names, some result has been delivered by the time the last request starts.
pub proof fn results_before_the_whole_list(w: Window)
    requires
        w.wf(),
        w.concurrency() < w.names().len(),
        w.started() == w.names().len(),
    ensures
        w.delivered() > 0,
{
}

// What the decisions come to

/// A domain is free by status 404 alone, taken by any status of success, asked for
/// again after status 429, after any status of a broken server and after no answer
/// at all, and unknown by every other status.
pub proof fn what_a_status_decides(attempt: u32, status: u16)
    ensures
        reaction(attempt, Reply::Status(status)) == Reaction::Answer(Availability::Free) <==> status
            == 404,
        reaction(attempt, Reply::Status(status)) == Reaction::Answer(Availability::Taken)
            <==> status / 100 == 2,
        !(reaction(attempt, Reply::Status(status)) is Answer) <==> status == 429 || status / 100
            == 5,
        reaction(attempt, Reply::Status(status)) == Reaction::Answer(Availability::Unknown)
            <==> status / 100 != 2 && status / 100 != 5 && status != 404 && status != 429,
        !(reaction(attempt, Reply::Failed) is Answer),
{
}

/// So many seconds are waited for after a reaction.
pub open spec fn seconds_of(r: Reaction) -> u64 {
    match r {
        Reaction::Answer(_) => 0,
        Reaction::RetryAfter(s) => s,
        Reaction::GiveUpAfter(s) => s,
    }
}

/// A name is asked for three times at most: after the first two requests it is
/// asked for again, after the third it is given up. The pauses double from one
/// request to the next, beginning with one second after a lost connection and with
/// two after a refusal.
pub proof fn requests_are_repeated_twice(attempt: u32, reply: Reply)
    requires
        attempt <= 2,
        !(reaction(attempt, reply) is Answer),
    ensures
        attempt < 2 <==> reaction(attempt, reply) is RetryAfter,
        attempt == 2 <==> reaction(attempt, reply) is GiveUpAfter,
        reply is Failed ==> seconds_of(reaction(attempt, reply)) == vstd::arithmetic::power2::pow2(
            attempt as nat,
        ),
        reply is Status ==> seconds_of(reaction(attempt, reply)) == vstd::arithmetic::power2::pow2(
            (attempt + 1) as nat,
        ),
{
    reveal_with_fuel(power, 5);
    vstd::arithmetic::power2::lemma2_to64();
}

/// A request is started exactly when the rate limiter is there, a name is left to
/// ask for, and a place is left among those that may be in flight.
pub proof fn requests_start_while_there_is_room(w: Window)
    requires
        w.wf(),
    ensures
        w.can_start() <==> {
            &&& !w.is_closed()
            &&& w.names().len() - w.started() > 0
            &&& w.concurrency() - (w.started() - w.delivered()) > 0
        },
{
}

/// The names from the first that is not started yet.
pub open spec fn names_left(w: Window) -> Seq<Seq<char>> {
    w.names().skip(w.started() as int)
}

/// A start takes the first name off those that are left, and a delivery one request
/// out of those in flight; neither changes anything else, and the loss of the rate
/// limiter changes neither.
pub proof fn steps_go_one_by_one(w: Window, after: Window)
    requires
        w.wf(),
    ensures
        w.is_start(after) ==> names_left(after) == names_left(w).drop_first() && after.delivered()
            == w.delivered() && after.concurrency() == w.concurrency() && after.is_closed()
            == w.is_closed() && after.wf(),
        w.is_delivery(after) ==> names_left(after) == names_left(w) && after.started()
            - after.delivered() == w.started() - w.delivered() - 1 && after.concurrency()
            == w.concurrency() && after.is_closed() == w.is_closed() && after.wf(),
        w.is_loss(after) ==> names_left(after) == names_left(w) && after.started() == w.started()
            && after.delivered() == w.delivered() && !after.can_start() && after.wf(),
{
    if w.is_start(after) {
        assert(names_left(after) =~= names_left(w).drop_first());
    }
}

} // verus!
