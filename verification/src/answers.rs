//! What is accepted of a model's answers.

use crate::judge;
use crate::keyed::KeyedMap;
use crate::names;
use crate::text;
use vstd::prelude::*;
use vstd::seq_lib::*;
use vstd::utf8::*;

verus! {

/// A scored name.
#[derive(Debug)]
pub struct Triage<S> {
    pub name: String,
    /// Fit from 0 to 10 relative to the brief.
    pub fit: S,
}

/// A described name.
#[derive(Debug)]
pub struct Verdict {
    pub name: String,
    pub tagline: String,
    pub description: String,
    /// Why this name fits the stated positioning.
    pub rationale: String,
    /// Concerns: similarity to a brand, pronunciation ambiguity, and so on.
    pub concerns: String,
    /// Model and prompt fingerprint that produced this description. A severity
    /// is meaningful only with them: changing the model or prompt changes the
    /// judgment, and reusing the old one would make it appear current.
    pub model: String,
    pub prompt: String,
    /// Severity of concerns, from 1 to 5. Without it, `concerns` cannot rank
    /// anything: a conscientious model always finds something to say about every
    /// name, and everything ends up flagged at the same level.
    pub severity: u8,
}

/// Why an answer was refused.
#[derive(Debug)]
pub enum AnswerError {
    /// The request itself named a name twice.
    DuplicateRequest,
    /// The answer has a name that was not asked for.
    Unrequested(String),
    /// The answer has a name twice.
    Duplicate(String),
    /// So many names were asked for, and so many came back.
    Incomplete(usize, usize),
    /// The score at this place, of this name, is not one from 0 to 10.
    FitOutOfRange(usize, String),
    /// The severity of this name is not one from 1 to 5.
    SeverityOutOfRange(String, u8),
}

impl AnswerError {
    /// The error in words. The score itself is left to be shown by whoever knows
    /// how to show a score.
    pub open spec fn text(&self) -> Seq<char> {
        match self {
            AnswerError::DuplicateRequest => "the requested batch contains duplicate names"@,
            AnswerError::Unrequested(n) => "the response contains an unrequested name: "@ + n@,
            AnswerError::Duplicate(n) => "duplicate name in the response: "@ + n@,
            AnswerError::Incomplete(asked, came) => "incomplete response: "@
                + text::decimal_digits(*asked as nat) + " name(s) requested, "@
                + text::decimal_digits(*came as nat) + " received"@,
            AnswerError::FitOutOfRange(_, n) => "score out of range for "@ + n@,
            AnswerError::SeverityOutOfRange(n, s) => "severity out of range for "@ + n@ + ": "@
                + text::decimal_digits(*s as nat),
        }
    }

    /// The error in words.
    pub fn message(&self) -> (r: String)
        ensures
            r@ == self.text(),
    {
        match self {
            AnswerError::DuplicateRequest => text::copy_text(
                "the requested batch contains duplicate names",
            ),
            AnswerError::Unrequested(n) => {
                let mut r = text::copy_text("the response contains an unrequested name: ");
                r.append(n.as_str());
                r
            },
            AnswerError::Duplicate(n) => {
                let mut r = text::copy_text("duplicate name in the response: ");
                r.append(n.as_str());
                r
            },
            AnswerError::Incomplete(asked, came) => {
                let mut r = text::copy_text("incomplete response: ");
                r.append(text::decimal(*asked).as_str());
                r.append(" name(s) requested, ");
                r.append(text::decimal(*came).as_str());
                r.append(" received");
                r
            },
            AnswerError::FitOutOfRange(_, n) => {
                let mut r = text::copy_text("score out of range for ");
                r.append(n.as_str());
                r
            },
            AnswerError::SeverityOutOfRange(n, s) => {
                let mut r = text::copy_text("severity out of range for ");
                r.append(n.as_str());
                r.append(": ");
                r.append(text::decimal(*s as usize).as_str());
                r
            },
        }
    }
}

/// The content of a reply: that of its first choice, if it has one.
pub fn first_content(contents: Vec<String>) -> (r: Option<String>)
    ensures
        match r {
            Some(content) => contents@.len() > 0 && content@ == contents@[0]@,
            None => contents@.len() == 0,
        },
{
    if contents.len() == 0 {
        None
    } else {
        Some(text::copy_text(contents[0].as_str()))
    }
}

/// No name occurs twice.
pub open spec fn all_differ(list: Seq<Seq<char>>) -> bool {
    forall|i: int| 0 <= i < list.len() ==> !#[trigger] names::repeats(list, i)
}

/// The name at `i` was asked for and did not come before.
pub open spec fn is_expected_at(received: Seq<Seq<char>>, requested: Seq<Seq<char>>, i: int) -> bool {
    requested.contains(received[i]) && !names::repeats(received, i)
}

/// Every name was asked for and came once.
pub open spec fn all_expected(received: Seq<Seq<char>>, requested: Seq<Seq<char>>) -> bool {
    forall|i: int| 0 <= i < received.len() ==> #[trigger] is_expected_at(received, requested, i)
}

/// The name at `i` is the first one that was not asked for or came before.
pub open spec fn is_first_surprise(
    received: Seq<Seq<char>>,
    requested: Seq<Seq<char>>,
    i: int,
) -> bool {
    &&& 0 <= i < received.len()
    &&& !is_expected_at(received, requested, i)
    &&& forall|j: int| 0 <= j < i ==> #[trigger] is_expected_at(received, requested, j)
}

/// The answer names exactly the names of the request, each once.
pub open spec fn is_complete(received: Seq<Seq<char>>, requested: Seq<Seq<char>>) -> bool {
    &&& all_differ(requested)
    &&& all_expected(received, requested)
    &&& received.len() == requested.len()
}

/// The names of an answer were refused for the reason that holds of them.
pub open spec fn refuses_names(
    received: Seq<Seq<char>>,
    requested: Seq<Seq<char>>,
    e: AnswerError,
) -> bool {
    match e {
        AnswerError::DuplicateRequest => !all_differ(requested),
        AnswerError::Unrequested(n) => all_differ(requested) && exists|i: int| #[trigger]
            is_first_surprise(received, requested, i) && !requested.contains(received[i]) && n@
                == received[i],
        AnswerError::Duplicate(n) => all_differ(requested) && exists|i: int| #[trigger]
            is_first_surprise(received, requested, i) && requested.contains(received[i]) && n@
                == received[i],
        AnswerError::Incomplete(asked, came) => {
            &&& all_differ(requested)
            &&& all_expected(received, requested)
            &&& received.len() != requested.len()
            &&& asked == requested.len()
            &&& came == received.len()
        },
        _ => false,
    }
}

/// A name is in a list exactly when its bytes are among those of the list.
proof fn lemma_contains_by_key(list: Seq<Seq<char>>, name: Seq<char>)
    ensures
        names::keys_before(list, list.len() as int).contains(encode_utf8(name)) == list.contains(
            name,
        ),
{
    if names::keys_before(list, list.len() as int).contains(encode_utf8(name)) {
        let j = choose|j: int|
            0 <= j < list.len() && encode_utf8(name) == encode_utf8(#[trigger] list[j]);
        text::bytes_identify_text(name, list[j]);
    }
    if list.contains(name) {
        let j = choose|j: int| 0 <= j < list.len() && #[trigger] list[j] == name;
        assert(encode_utf8(name) == encode_utf8(list[j]));
    }
}

/// Compares the names of an answer with those of the request. A model may leave
/// names out, repeat them or make them up.
pub fn validate_response_names(received: &[String], requested: &[String]) -> (r: Result<
    (),
    AnswerError,
>)
    ensures
        match r {
            Ok(_) => is_complete(text::texts(received@), text::texts(requested@)),
            Err(e) => refuses_names(text::texts(received@), text::texts(requested@), e),
        },
{
    let ghost asked = text::texts(requested@);
    let ghost came = text::texts(received@);
    let mut expected: KeyedMap<()> = KeyedMap::new();
    assert(expected@.dom() =~= names::keys_before(asked, 0));
    for i in 0..requested.len()
        invariant
            asked == text::texts(requested@),
            expected@.dom() == names::keys_before(asked, i as int),
            forall|j: int| 0 <= j < i ==> !#[trigger] names::repeats(asked, j),
    {
        proof {
            names::lemma_repeats_by_key(asked, i as int);
        }
        let name = requested[i].as_str();
        assert(asked[i as int] == name@);
        if expected.contains(name.as_bytes()) {
            assert(names::repeats(asked, i as int));
            return Err(AnswerError::DuplicateRequest);
        }
        expected.insert(names::bytes_vec(name), ());
        assert(expected@.dom() =~= names::keys_before(asked, i + 1));
    }
    let mut seen: KeyedMap<()> = KeyedMap::new();
    assert(seen@.dom() =~= names::keys_before(came, 0));
    for i in 0..received.len()
        invariant
            asked == text::texts(requested@),
            came == text::texts(received@),
            all_differ(asked),
            expected@.dom() == names::keys_before(asked, asked.len() as int),
            seen@.dom() == names::keys_before(came, i as int),
            forall|j: int| 0 <= j < i ==> #[trigger] is_expected_at(came, asked, j),
    {
        let name = received[i].as_str();
        assert(came[i as int] == name@);
        proof {
            lemma_contains_by_key(asked, name@);
            names::lemma_repeats_by_key(came, i as int);
        }
        if !expected.contains(name.as_bytes()) {
            assert(is_first_surprise(came, asked, i as int));
            return Err(AnswerError::Unrequested(text::copy_text(name)));
        }
        if seen.contains(name.as_bytes()) {
            assert(is_first_surprise(came, asked, i as int));
            return Err(AnswerError::Duplicate(text::copy_text(name)));
        }
        seen.insert(names::bytes_vec(name), ());
        assert(seen@.dom() =~= names::keys_before(came, i + 1));
    }
    if received.len() != requested.len() {
        return Err(AnswerError::Incomplete(requested.len(), received.len()));
    }
    Ok(())
}

/// A list in which no name occurs twice has no duplicates.
proof fn lemma_differ(list: Seq<Seq<char>>)
    requires
        all_differ(list),
    ensures
        list.no_duplicates(),
{
    assert forall|i: int, j: int| 0 <= i < list.len() && 0 <= j < list.len() && i != j implies list[i]
        != list[j] by {
        if list[i] == list[j] {
            if i < j {
                assert(names::repeats(list, j));
            } else {
                assert(names::repeats(list, i));
            }
        }
    }
}

/// An accepted answer has neither more nor fewer names than the request: a name
/// is in the one exactly when it is in the other, and in both only once.
pub proof fn accepted_names_are_the_requested(received: Seq<Seq<char>>, requested: Seq<Seq<char>>)
    requires
        is_complete(received, requested),
    ensures
        received.no_duplicates(),
        requested.no_duplicates(),
        forall|n: Seq<char>| received.contains(n) <==> requested.contains(n),
{
    assert forall|i: int| 0 <= i < received.len() implies !#[trigger] names::repeats(
        received,
        i,
    ) by {
        assert(is_expected_at(received, requested, i));
    }
    lemma_differ(received);
    lemma_differ(requested);
    received.unique_seq_to_set();
    requested.unique_seq_to_set();
    seq_to_set_is_finite(received);
    seq_to_set_is_finite(requested);
    assert forall|n: Seq<char>| #[trigger] received.to_set().contains(
        n,
    ) implies requested.to_set().contains(n) by {
        let i = choose|i: int| 0 <= i < received.len() && received[i] == n;
        assert(is_expected_at(received, requested, i));
    }
    assert(received.to_set().subset_of(requested.to_set()));
    vstd::set_lib::lemma_subset_equality(received.to_set(), requested.to_set());
    assert forall|n: Seq<char>| received.contains(n) <==> requested.contains(n) by {
        assert(received.to_set().contains(n) == requested.to_set().contains(n));
    }
}

/// The names of scored names.
pub open spec fn scored_names<S>(out: Seq<Triage<S>>) -> Seq<Seq<char>> {
    out.map_values(|t: Triage<S>| t.name@)
}

/// The names of described names.
pub open spec fn described_names(out: Seq<Verdict>) -> Seq<Seq<char>> {
    out.map_values(|v: Verdict| v.name@)
}

/// Pass 1: accepts the scores of a batch. `in_range` decides whether a score is
/// a number from 0 to 10.
pub fn accept_triage<S, F: Fn(&S) -> bool>(
    out: &Vec<Triage<S>>,
    requested: &[String],
    in_range: F,
) -> (r: Result<(), AnswerError>)
    requires
        forall|s: &S| call_requires(in_range, (s,)),
    ensures
        match r {
            Ok(_) => {
                &&& is_complete(scored_names(out@), text::texts(requested@))
                &&& forall|i: int|
                    0 <= i < out@.len() ==> call_ensures(
                        in_range,
                        (&(#[trigger] out@[i]).fit,),
                        true,
                    )
            },
            Err(AnswerError::FitOutOfRange(n, name)) => {
                &&& is_complete(scored_names(out@), text::texts(requested@))
                &&& n < out@.len()
                &&& name@ == out@[n as int].name@
                &&& call_ensures(in_range, (&out@[n as int].fit,), false)
                &&& forall|i: int|
                    0 <= i < n ==> call_ensures(in_range, (&(#[trigger] out@[i]).fit,), true)
            },
            Err(e) => refuses_names(scored_names(out@), text::texts(requested@), e),
        },
{
    let mut received: Vec<String> = Vec::new();
    for i in 0..out.len()
        invariant
            text::texts(received@) =~= scored_names(out@.take(i as int)),
    {
        let name = text::copy_text(out[i].name.as_str());
        received.push(name);
        assert(scored_names(out@.take(i + 1)) =~= scored_names(out@.take(i as int)).push(name@));
    }
    assert(out@.take(out@.len() as int) =~= out@);
    if let Err(e) = validate_response_names(received.as_slice(), requested) {
        return Err(e);
    }
    for i in 0..out.len()
        invariant
            forall|s: &S| call_requires(in_range, (s,)),
            is_complete(scored_names(out@), text::texts(requested@)),
            forall|j: int|
                0 <= j < i ==> call_ensures(in_range, (&(#[trigger] out@[j]).fit,), true),
    {
        if !in_range(&out[i].fit) {
            return Err(AnswerError::FitOutOfRange(i, text::copy_text(out[i].name.as_str())));
        }
    }
    Ok(())
}

/// The severity is on the scale.
pub open spec fn is_severity(s: u8) -> bool {
    1 <= s <= 5
}

/// The severity at `i` is the first one that is not on the scale.
pub open spec fn is_first_off_scale(out: Seq<Verdict>, i: int) -> bool {
    &&& 0 <= i < out.len()
    &&& !is_severity(out[i].severity)
    &&& forall|j: int| 0 <= j < i ==> is_severity((#[trigger] out[j]).severity)
}

/// `signed` is `v`, signed with a model and a prompt.
pub open spec fn is_signed(v: Verdict, signed: Verdict, model: Seq<char>, prompt: Seq<char>) -> bool {
    &&& signed.model@ == model
    &&& signed.prompt@ == prompt
    &&& signed.name == v.name
    &&& signed.tagline == v.tagline
    &&& signed.description == v.description
    &&& signed.rationale == v.rationale
    &&& signed.concerns == v.concerns
    &&& signed.severity == v.severity
}

/// Pass 2: accepts the descriptions of a batch and signs them with the model and
/// the prompt that produced them.
pub fn accept_verdicts(
    out: Vec<Verdict>,
    requested: &[String],
    cache_model: &str,
    brief: &str,
) -> (r: Result<Vec<Verdict>, AnswerError>)
    ensures
        match r {
            Ok(signed) => {
                &&& is_complete(described_names(out@), text::texts(requested@))
                &&& signed@.len() == out@.len()
                &&& forall|i: int|
                    0 <= i < out@.len() ==> is_severity((#[trigger] out@[i]).severity) && is_signed(
                        out@[i],
                        signed@[i],
                        cache_model@,
                        judge::fingerprint(cache_model@, brief@),
                    )
            },
            Err(AnswerError::SeverityOutOfRange(n, s)) => {
                &&& is_complete(described_names(out@), text::texts(requested@))
                &&& exists|i: int| #[trigger]
                    is_first_off_scale(out@, i) && n@ == out@[i].name@ && s == out@[i].severity
            },
            Err(e) => refuses_names(described_names(out@), text::texts(requested@), e),
        },
{
    let mut received: Vec<String> = Vec::new();
    for i in 0..out.len()
        invariant
            text::texts(received@) =~= described_names(out@.take(i as int)),
    {
        let name = text::copy_text(out[i].name.as_str());
        received.push(name);
        assert(described_names(out@.take(i + 1)) =~= described_names(out@.take(i as int)).push(
            name@,
        ));
    }
    assert(out@.take(out@.len() as int) =~= out@);
    if let Err(e) = validate_response_names(received.as_slice(), requested) {
        return Err(e);
    }
    for i in 0..out.len()
        invariant
            is_complete(described_names(out@), text::texts(requested@)),
            forall|j: int| 0 <= j < i ==> is_severity((#[trigger] out@[j]).severity),
    {
        let s: u8 = out[i].severity;
        if !(1 <= s && s <= 5) {
            assert(is_first_off_scale(out@, i as int));
            return Err(
                AnswerError::SeverityOutOfRange(text::copy_text(out[i].name.as_str()), s),
            );
        }
    }
    let id = judge::prompt_id(cache_model, brief);
    let mut signed: Vec<Verdict> = Vec::new();
    for v in it: out
        invariant
            it.seq() == out@,
            id@ == judge::fingerprint(cache_model@, brief@),
            signed@.len() == it.index(),
            forall|i: int|
                0 <= i < signed@.len() ==> is_signed(
                    out@[i],
                    #[trigger] signed@[i],
                    cache_model@,
                    judge::fingerprint(cache_model@, brief@),
                ),
    {
        signed.push(
            Verdict {
                name: v.name,
                tagline: v.tagline,
                description: v.description,
                rationale: v.rationale,
                concerns: v.concerns,
                model: text::copy_text(cache_model),
                prompt: text::copy_text(id.as_str()),
                severity: v.severity,
            },
        );
    }
    Ok(signed)
}

// What is accepted and what is refused

/// The names of scored and of described names stand in the order of the lists.
pub proof fn names_are_those_of_the_rows<S>(scored: Seq<Triage<S>>, described: Seq<Verdict>)
    ensures
        scored_names(scored).len() == scored.len(),
        forall|i: int|
            0 <= i < scored.len() ==> #[trigger] scored_names(scored)[i] == scored[i].name@,
        described_names(described).len() == described.len(),
        forall|i: int|
            0 <= i < described.len() ==> #[trigger] described_names(described)[i]
                == described[i].name@,
{
}

proof fn lemma_no_repeats(list: Seq<Seq<char>>)
    requires
        list.no_duplicates(),
    ensures
        all_differ(list),
{
    assert forall|i: int| 0 <= i < list.len() implies !#[trigger] names::repeats(list, i) by {
        if names::repeats(list, i) {
            let j = choose|j: int| 0 <= j < i && #[trigger] list[j] == list[i];
            assert(list[j] != list[i]);
        }
    }
}

/// An answer is accepted exactly when it has the names of the request, every one of
/// them once and no other, in whatever order; and the request has no name twice.
pub proof fn complete_answers_are_accepted(received: Seq<Seq<char>>, requested: Seq<Seq<char>>)
    ensures
        is_complete(received, requested) <==> {
            &&& received.no_duplicates()
            &&& requested.no_duplicates()
            &&& forall|n: Seq<char>| received.contains(n) <==> requested.contains(n)
        },
{
    if is_complete(received, requested) {
        accepted_names_are_the_requested(received, requested);
    }
    if received.no_duplicates() && requested.no_duplicates() && (forall|n: Seq<char>|
        received.contains(n) <==> requested.contains(n)) {
        lemma_no_repeats(received);
        lemma_no_repeats(requested);
        assert forall|i: int| 0 <= i < received.len() implies #[trigger] is_expected_at(
            received,
            requested,
            i,
        ) by {
            assert(received.contains(received[i]));
            assert(!names::repeats(received, i));
        }
        received.unique_seq_to_set();
        requested.unique_seq_to_set();
        assert(received.to_set() =~= requested.to_set()) by {
            assert forall|n: Seq<char>| received.to_set().contains(n)
                == requested.to_set().contains(n) by {
                assert(received.contains(n) <==> requested.contains(n));
            }
        }
    }
}

proof fn lemma_complete_has_no_surprise(received: Seq<Seq<char>>, requested: Seq<Seq<char>>)
    requires
        is_complete(received, requested),
    ensures
        forall|i: int| !#[trigger] is_first_surprise(received, requested, i),
{
    assert forall|i: int| !#[trigger] is_first_surprise(received, requested, i) by {
        if is_first_surprise(received, requested, i) {
            assert(is_expected_at(received, requested, i));
        }
    }
}

/// The names before `i` were all asked for, and all of them differ.
pub open spec fn are_fine_before(
    received: Seq<Seq<char>>,
    requested: Seq<Seq<char>>,
    i: int,
) -> bool {
    &&& 0 <= i < received.len()
    &&& received.take(i).no_duplicates()
    &&& forall|j: int| 0 <= j < i ==> requested.contains(#[trigger] received[j])
}

proof fn lemma_fine_before_a_surprise(
    received: Seq<Seq<char>>,
    requested: Seq<Seq<char>>,
    i: int,
)
    requires
        is_first_surprise(received, requested, i),
    ensures
        are_fine_before(received, requested, i),
        requested.contains(received[i]) ==> received.take(i).contains(received[i]),
{
    let before = received.take(i);
    assert forall|j: int| 0 <= j < before.len() implies !#[trigger] names::repeats(before, j) by {
        assert(is_expected_at(received, requested, j));
        if names::repeats(before, j) {
            let x = choose|x: int| 0 <= x < j && #[trigger] before[x] == before[j];
            assert(received[x] == received[j]);
        }
    }
    lemma_differ(before);
    assert forall|j: int| 0 <= j < i implies requested.contains(#[trigger] received[j]) by {
        assert(is_expected_at(received, requested, j));
    }
    if names::repeats(received, i) {
        let x = choose|x: int| 0 <= x < i && #[trigger] received[x] == received[i];
        assert(before[x] == received[i]);
    }
}

/// An answer is refused for the first thing that is wrong with it: a name twice in
/// the request; a name that was not asked for, or that came before, where all names
/// before it were asked for and differ; or too few names, with their numbers. One
/// that is accepted is never refused.
pub proof fn answers_are_refused_for_their_first_fault(
    received: Seq<Seq<char>>,
    requested: Seq<Seq<char>>,
    e: AnswerError,
)
    requires
        refuses_names(received, requested, e),
    ensures
        !is_complete(received, requested),
        e is DuplicateRequest <==> !requested.no_duplicates(),
        match e {
            AnswerError::DuplicateRequest => true,
            AnswerError::Unrequested(n) => exists|i: int| #[trigger]
                are_fine_before(received, requested, i) && received[i] == n@ && !requested.contains(
                    n@,
                ),
            AnswerError::Duplicate(n) => exists|i: int| #[trigger]
                are_fine_before(received, requested, i) && received[i] == n@ && received.take(
                    i,
                ).contains(n@),
            AnswerError::Incomplete(asked, came) => {
                &&& asked == requested.len()
                &&& came == received.len()
                &&& came < asked
                &&& received.no_duplicates()
                &&& forall|n: Seq<char>| received.contains(n) ==> requested.contains(n)
            },
            _ => false,
        },
{
    if is_complete(received, requested) {
        lemma_complete_has_no_surprise(received, requested);
    }
    if all_differ(requested) {
        lemma_differ(requested);
    }
    if requested.no_duplicates() {
        lemma_no_repeats(requested);
    }
    match e {
        AnswerError::Unrequested(n) => {
            let i = choose|i: int| #[trigger]
                is_first_surprise(received, requested, i) && !requested.contains(received[i])
                    && n@ == received[i];
            lemma_fine_before_a_surprise(received, requested, i);
        },
        AnswerError::Duplicate(n) => {
            let i = choose|i: int| #[trigger]
                is_first_surprise(received, requested, i) && requested.contains(received[i])
                    && n@ == received[i];
            lemma_fine_before_a_surprise(received, requested, i);
        },
        AnswerError::Incomplete(asked, came) => {
            assert forall|i: int| 0 <= i < received.len() implies !#[trigger] names::repeats(
                received,
                i,
            ) by {
                assert(is_expected_at(received, requested, i));
            }
            lemma_differ(received);
            assert forall|n: Seq<char>| received.contains(n) implies requested.contains(n) by {
                let i = choose|i: int| 0 <= i < received.len() && received[i] == n;
                assert(is_expected_at(received, requested, i));
            }
            received.unique_seq_to_set();
            requested.unique_seq_to_set();
            seq_to_set_is_finite(received);
            seq_to_set_is_finite(requested);
            assert(received.to_set().subset_of(requested.to_set()));
            vstd::set_lib::lemma_len_subset(received.to_set(), requested.to_set());
        },
        _ => {},
    }
}

/// A severity is one of five.
pub proof fn the_severities(s: u8)
    ensures
        is_severity(s) <==> s == 1 || s == 2 || s == 3 || s == 4 || s == 5,
{
}

/// Signing a description changes nothing in it but the signature.
pub proof fn signing_keeps_the_judgment(
    v: Verdict,
    signed: Verdict,
    model: Seq<char>,
    prompt: Seq<char>,
)
    requires
        is_signed(v, signed, model, prompt),
    ensures
        signed == (Verdict { model: signed.model, prompt: signed.prompt, ..v }),
        signed.model@ == model,
        signed.prompt@ == prompt,
{
}

/// What is reported of severities is the first one that is not from one to five.
pub proof fn the_first_severity_off_the_scale(out: Seq<Verdict>, i: int)
    requires
        is_first_off_scale(out, i),
    ensures
        0 <= i < out.len(),
        out[i].severity == 0 || out[i].severity > 5,
        forall|j: int| 0 <= j < i ==> 0 < (#[trigger] out[j]).severity && out[j].severity < 6,
{
}

/// What is said of an answer that was refused holds the name and the numbers that it
/// was refused for.
pub proof fn refusals_hold_what_was_wrong(n: String, asked: usize, came: usize, s: u8)
    ensures
        AnswerError::DuplicateRequest.text() == "the requested batch contains duplicate names"@,
        AnswerError::Unrequested(n).text() == "the response contains an unrequested name: "@ + n@,
        AnswerError::Duplicate(n).text() == "duplicate name in the response: "@ + n@,
        AnswerError::Incomplete(asked, came).text() == "incomplete response: "@
            + text::decimal_digits(asked as nat) + " name(s) requested, "@ + text::decimal_digits(
            came as nat,
        ) + " received"@,
        AnswerError::FitOutOfRange(asked, n).text() == "score out of range for "@ + n@,
        AnswerError::SeverityOutOfRange(n, s).text() == "severity out of range for "@ + n@ + ": "@
            + text::decimal_digits(s as nat),
{
}

} // verus!
