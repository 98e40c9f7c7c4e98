//! Journals: one JSON object per line, appended as results come in and loaded at
//! the start of the next run, so that nothing is asked or paid for twice.

use crate::answers::Verdict;
use crate::check::Availability;
use crate::json;
use crate::keyed::KeyedMap;
use crate::names;
use crate::text;
use vstd::prelude::*;
use vstd::utf8::*;

verus! {

/// The line is more than white space.
pub open spec fn is_record() -> spec_fn(Seq<char>) -> bool {
    |l: Seq<char>| text::trimmed(l).len() > 0
}

/// The lines of a journal that hold a record.
pub open spec fn records_of(t: Seq<char>) -> Seq<Seq<char>> {
    text::lines_of(t).filter(is_record())
}

/// The lines of a journal that hold a record. Blank lines are skipped.
pub fn records(t: &str) -> (r: Vec<String>)
    ensures
        text::texts(r@) == records_of(t@),
{
    let lines = text::lines(t);
    let ghost all = text::lines_of(t@);
    let mut r: Vec<String> = Vec::new();
    proof {
        reveal(Seq::filter);
        assert(text::texts(r@) =~= all.take(0).filter(is_record()));
    }
    for i in 0..lines.len()
        invariant
            all == text::lines_of(t@),
            text::texts(lines@) == all,
            text::texts(r@) == all.take(i as int).filter(is_record()),
    {
        let line = lines[i].as_str();
        proof {
            reveal(Seq::filter);
            assert(text::texts(lines@)[i as int] == line@);
            assert(all.take(i + 1).drop_last() =~= all.take(i as int));
            assert(all.take(i + 1).last() == line@);
        }
        let ghost before = text::texts(r@);
        if !text::trim(line).as_str().is_empty() {
            let copy = text::copy_text(line);
            r.push(copy);
            assert(text::texts(r@) =~= before.push(line@));
        }
    }
    assert(all.take(lines@.len() as int) =~= all);
    r
}

/// The first record that is no JSON, and what the parser says of it.
#[derive(Debug)]
pub struct BadRecord {
    pub line: String,
    pub reason: String,
}

impl BadRecord {
    /// The error in words.
    pub fn message(&self) -> (r: String)
        ensures
            r@ == "unreadable cache line: "@ + self.line@,
    {
        let mut r = text::copy_text("unreadable cache line: ");
        r.append(self.line.as_str());
        r
    }
}

/// Every record of the journal is JSON.
pub open spec fn is_readable(records: Seq<Seq<char>>) -> bool {
    forall|i: int| 0 <= i < records.len() ==> json::is_json(#[trigger] records[i])
}

/// The record at `i` is the first one that is no JSON.
pub open spec fn is_first_unreadable(records: Seq<Seq<char>>, i: int) -> bool {
    &&& 0 <= i < records.len()
    &&& !json::is_json(records[i])
    &&& forall|j: int| 0 <= j < i ==> json::is_json(#[trigger] records[j])
}

/// What is reported is the first record that is no JSON, and why it is none.
pub open spec fn is_report(records: Seq<Seq<char>>, bad: BadRecord) -> bool {
    exists|i: int| #[trigger]
        is_first_unreadable(records, i) && bad.line@ == records[i] && json::json_complaint(
            records[i],
        ) == Some(bad.reason@)
}

// Availability

/// The word for a verdict.
pub open spec fn word_for(a: Availability) -> Seq<char> {
    match a {
        Availability::Free => "free"@,
        Availability::Taken => "taken"@,
        Availability::Unknown => "unknown"@,
    }
}

/// The word for a verdict.
pub fn label(a: Availability) -> (r: &'static str)
    ensures
        r@ == word_for(a),
{
    match a {
        Availability::Free => "free",
        Availability::Taken => "taken",
        Availability::Unknown => "unknown",
    }
}

/// The verdicts known after one more record, given its name and its word.
/// Unknown results are not remembered; they deserve another attempt.
pub open spec fn with_verdict(
    known: Map<Seq<u8>, Availability>,
    name: Option<Seq<char>>,
    word: Option<Seq<char>>,
) -> Map<Seq<u8>, Availability> {
    match (name, word) {
        (Some(n), Some(w)) => if w == "free"@ {
            known.insert(encode_utf8(n), Availability::Free)
        } else if w == "taken"@ {
            known.insert(encode_utf8(n), Availability::Taken)
        } else {
            known
        },
        _ => known,
    }
}

/// The verdicts that a list of records holds; the last one on a name counts.
pub open spec fn verdicts_in(records: Seq<Seq<char>>) -> Map<Seq<u8>, Availability>
    decreases records.len(),
{
    if records.len() == 0 {
        Map::empty()
    } else {
        with_verdict(
            verdicts_in(records.drop_last()),
            json::json_text(records.last(), "name"@),
            json::json_text(records.last(), "verdict"@),
        )
    }
}

/// Remembers the verdict of one record, given what it holds under `name` and
/// under `verdict`.
pub fn remember_verdict(
    known: &mut KeyedMap<Availability>,
    name: Option<String>,
    word: Option<String>,
)
    ensures
        final(known)@ == with_verdict(old(known)@, json::text_in(name), json::text_in(word)),
{
    if let Some(n) = name {
        if let Some(w) = word {
            if text::same_text(w.as_str(), "free") {
                known.insert(names::bytes_vec(n.as_str()), Availability::Free);
            } else if text::same_text(w.as_str(), "taken") {
                known.insert(names::bytes_vec(n.as_str()), Availability::Taken);
            }
        }
    }
}

/// Known verdicts loaded from the journal.
pub fn load_cache(t: &str) -> (r: Result<KeyedMap<Availability>, BadRecord>)
    ensures
        match r {
            Ok(known) => {
                &&& is_readable(records_of(t@))
                &&& known@ == verdicts_in(records_of(t@))
            },
            Err(bad) => is_report(records_of(t@), bad),
        },
{
    let lines = records(t);
    let ghost all = records_of(t@);
    let mut known: KeyedMap<Availability> = KeyedMap::new();
    for i in 0..lines.len()
        invariant
            all == records_of(t@),
            text::texts(lines@) == all,
            known@ == verdicts_in(all.take(i as int)),
            forall|j: int| 0 <= j < i ==> json::is_json(#[trigger] all[j]),
    {
        let line = lines[i].as_str();
        assert(text::texts(lines@)[i as int] == line@);
        assert(all.take(i + 1).drop_last() =~= all.take(i as int));
        match (json::read_text(line, "name"), json::read_text(line, "verdict")) {
            (Ok(name), Ok(word)) => remember_verdict(&mut known, name, word),
            (Err(reason), _) | (_, Err(reason)) => {
                assert(is_first_unreadable(all, i as int));
                return Err(BadRecord { line: text::copy_text(line), reason });
            },
        }
    }
    assert(all.take(all.len() as int) =~= all);
    Ok(known)
}

/// A line is the record of a verdict on a name.
pub open spec fn is_verdict_record(line: Seq<char>, name: Seq<char>, a: Availability) -> bool {
    &&& line == json::json_object("name"@, name, "verdict"@, word_for(a))
    &&& json::is_json(line)
    &&& json::json_text(line, "name"@) == Some(name)
    &&& json::json_text(line, "verdict"@) == Some(word_for(a))
}

/// The record of a verdict on a name.
pub fn verdict_record(name: &str, a: Availability) -> (r: String)
    ensures
        is_verdict_record(r@, name@, a),
{
    proof {
        reveal_strlit("name");
        reveal_strlit("verdict");
    }
    json::to_json_object("name", name, "verdict", label(a))
}

/// What is written to the journal is read back: a definite verdict that is
/// appended is known on the next run and leaves all others as they were, and an
/// unknown one changes nothing, so that it is asked for again.
pub proof fn recorded_verdicts_are_read_back(
    t: Seq<char>,
    line: Seq<char>,
    name: Seq<char>,
    a: Availability,
)
    requires
        t.len() == 0 || t.last() == '\n',
        is_verdict_record(line, name, a),
    ensures
        is_readable(records_of(t + line.push('\n'))) == is_readable(records_of(t)),
        verdicts_in(records_of(t + line.push('\n'))) == (if a == Availability::Unknown {
            verdicts_in(records_of(t))
        } else {
            verdicts_in(records_of(t)).insert(encode_utf8(name), a)
        }),
{
    json::an_object_is_one_line("name"@, name, "verdict"@, word_for(a));
    lemma_record_appended(t, line);
    let before = records_of(t);
    assert(before.push(line).drop_last() =~= before);
    reveal_strlit("free");
    reveal_strlit("taken");
    reveal_strlit("unknown");
    assert("free"@.len() == 4 && "taken"@.len() == 5 && "unknown"@.len() == 7);
}

/// The journal knows only definite verdicts: what it knows of a name is that it
/// is free or that it is taken.
pub proof fn only_definite_verdicts_are_known(records: Seq<Seq<char>>, key: Seq<u8>)
    requires
        verdicts_in(records).contains_key(key),
    ensures
        verdicts_in(records)[key] != Availability::Unknown,
    decreases records.len(),
{
    if verdicts_in(records.drop_last()).contains_key(key) {
        only_definite_verdicts_are_known(records.drop_last(), key);
    }
}

/// Appending the line of a JSON object adds one record.
proof fn lemma_record_appended(t: Seq<char>, line: Seq<char>)
    requires
        t.len() == 0 || t.last() == '\n',
        text::is_one_line(line),
        line.len() > 0,
        line[0] == '{',
        line.last() == '}',
        json::is_json(line),
    ensures
        records_of(t + line.push('\n')) == records_of(t).push(line),
        is_readable(records_of(t).push(line)) == is_readable(records_of(t)),
{
    text::an_appended_line_is_read_back(t, line);
    assert(text::trimmed(line).len() > 0) by {
        assert(!text::is_white_space('{') && !text::is_white_space('}'));
        assert(text::trimmed_start(line) == line);
        assert(text::trimmed_end(line) == line);
    }
    let lines = text::lines_of(t);
    assert(lines.push(line).drop_last() =~= lines);
    reveal(Seq::filter);
    assert(records_of(t + line.push('\n')) == records_of(t).push(line));
    let before = records_of(t);
    let after = before.push(line);
    if is_readable(before) {
        assert forall|i: int| 0 <= i < after.len() implies json::is_json(#[trigger] after[i]) by {
            if i < before.len() {
                assert(after[i] == before[i]);
            }
        }
    }
    if is_readable(after) {
        assert forall|i: int| 0 <= i < before.len() implies json::is_json(
            #[trigger] before[i],
        ) by {
            assert(after[i] == before[i]);
        }
    }
}

// Fit scores

/// Where the score of a record comes from.
#[derive(Debug, Clone, Copy, PartialEq, Eq, Structural)]
pub enum Source {
    /// The record has no score.
    NoScore,
    /// From the model asked for.
    ThisModel,
    /// From another model.
    OtherModel,
    /// From a model that was not recorded.
    NoModel,
}

/// Where the score of a record comes from, given what it holds. Two models do
/// not score identically, so a score is meaningful only with the model that
/// produced it.
pub open spec fn source_of(
    name: Option<Seq<char>>,
    fit: Option<u64>,
    model: Option<Seq<char>>,
    wanted: Seq<char>,
) -> Source {
    if name is None || fit is None {
        Source::NoScore
    } else {
        match model {
            Some(m) => if m == wanted {
                Source::ThisModel
            } else {
                Source::OtherModel
            },
            None => Source::NoModel,
        }
    }
}

/// Where the score of a record comes from.
pub open spec fn source(record: Seq<char>, wanted: Seq<char>) -> Source {
    source_of(
        json::json_text(record, "name"@),
        json::json_number(record, "fit"@),
        json::json_text(record, "model"@),
        wanted,
    )
}

/// The number of records whose score comes from `which`.
pub open spec fn count_of(records: Seq<Seq<char>>, wanted: Seq<char>, which: Source) -> nat
    decreases records.len(),
{
    if records.len() == 0 {
        0
    } else {
        count_of(records.drop_last(), wanted, which) + (if source(records.last(), wanted) == which {
            1nat
        } else {
            0nat
        })
    }
}

/// The scores, as the bits of double-precision numbers, that a list of records
/// holds for a model: its own and those without a recorded model. The last one
/// on a name counts.
pub open spec fn fits_in(records: Seq<Seq<char>>, wanted: Seq<char>) -> Map<Seq<u8>, u64>
    decreases records.len(),
{
    if records.len() == 0 {
        Map::empty()
    } else {
        let before = fits_in(records.drop_last(), wanted);
        let s = source(records.last(), wanted);
        if s == Source::ThisModel || s == Source::NoModel {
            before.insert(
                encode_utf8(json::json_text(records.last(), "name"@)->Some_0),
                json::json_number(records.last(), "fit"@)->Some_0,
            )
        } else {
            before
        }
    }
}

/// Existing scores.
pub struct FitCache {
    /// By name, as the bits of double-precision numbers.
    pub scores: KeyedMap<u64>,
    /// Number of scores left aside because they came from another model.
    pub other_models: usize,
    /// Number of scores taken although their model was not recorded.
    pub legacy: usize,
}

/// Remembers the score of one record, given what it holds under `name`, `fit` and
/// `model`.
pub fn remember_fit(
    cache: &mut FitCache,
    name: Option<String>,
    fit: Option<u64>,
    model: Option<String>,
    wanted: &str,
)
    requires
        old(cache).other_models < usize::MAX,
        old(cache).legacy < usize::MAX,
    ensures
        ({
            let s = source_of(json::text_in(name), fit, json::text_in(model), wanted@);
            &&& final(cache).scores@ == (if s == Source::ThisModel || s == Source::NoModel {
                old(cache).scores@.insert(encode_utf8(name->Some_0@), fit->Some_0)
            } else {
                old(cache).scores@
            })
            &&& final(cache).other_models == old(cache).other_models + (if s == Source::OtherModel {
                1int
            } else {
                0int
            })
            &&& final(cache).legacy == old(cache).legacy + (if s == Source::NoModel {
                1int
            } else {
                0int
            })
        }),
{
    if let (Some(n), Some(f)) = (name, fit) {
        match model {
            Some(m) => {
                if text::same_text(m.as_str(), wanted) {
                    cache.scores.insert(names::bytes_vec(n.as_str()), f);
                } else {
                    cache.other_models = cache.other_models + 1;
                }
            },
            None => {
                cache.legacy = cache.legacy + 1;
                cache.scores.insert(names::bytes_vec(n.as_str()), f);
            },
        }
    }
}

/// Existing fit scores loaded from the journal.
///
/// Without the model as part of the key, switching models would silently reuse
/// old scores. Records written before the model was recorded are accepted, but
/// counted, so that they are never accepted silently.
pub fn load_fit_cache(t: &str, model: &str) -> (r: Result<FitCache, BadRecord>)
    ensures
        match r {
            Ok(cache) => {
                &&& is_readable(records_of(t@))
                &&& cache.scores@ == fits_in(records_of(t@), model@)
                &&& cache.other_models == count_of(records_of(t@), model@, Source::OtherModel)
                &&& cache.legacy == count_of(records_of(t@), model@, Source::NoModel)
            },
            Err(bad) => is_report(records_of(t@), bad),
        },
{
    let lines = records(t);
    let ghost all = records_of(t@);
    let mut cache = FitCache { scores: KeyedMap::new(), other_models: 0, legacy: 0 };
    for i in 0..lines.len()
        invariant
            all == records_of(t@),
            text::texts(lines@) == all,
            cache.scores@ == fits_in(all.take(i as int), model@),
            cache.other_models == count_of(all.take(i as int), model@, Source::OtherModel),
            cache.legacy == count_of(all.take(i as int), model@, Source::NoModel),
            cache.other_models <= i,
            cache.legacy <= i,
            forall|j: int| 0 <= j < i ==> json::is_json(#[trigger] all[j]),
    {
        let line = lines[i].as_str();
        assert(text::texts(lines@)[i as int] == line@);
        assert(all.take(i + 1).drop_last() =~= all.take(i as int));
        let fields = (
            json::read_text(line, "name"),
            json::read_number(line, "fit"),
            json::read_text(line, "model"),
        );
        match fields {
            (Ok(name), Ok(fit), Ok(recorded)) => {
                remember_fit(&mut cache, name, fit, recorded, model);
            },
            (Err(reason), _, _) | (_, Err(reason), _) | (_, _, Err(reason)) => {
                assert(is_first_unreadable(all, i as int));
                return Err(BadRecord { line: text::copy_text(line), reason });
            },
        }
    }
    assert(all.take(all.len() as int) =~= all);
    Ok(cache)
}

/// Switching models never brings up the scores of another one: where every
/// record tells its model, a score found for `wanted` was recorded for `wanted`.
pub proof fn scores_belong_to_the_model(records: Seq<Seq<char>>, wanted: Seq<char>, key: Seq<u8>)
    requires
        count_of(records, wanted, Source::NoModel) == 0,
        fits_in(records, wanted).contains_key(key),
    ensures
        exists|i: int|
            0 <= i < records.len() && source(#[trigger] records[i], wanted) == Source::ThisModel
                && key == encode_utf8(json::json_text(records[i], "name"@)->Some_0)
                && json::json_text(records[i], "model"@) == Some(wanted) && json::json_number(
                records[i],
                "fit"@,
            ) == Some(fits_in(records, wanted)[key]),
    decreases records.len(),
{
    let n = records.len() - 1;
    let rest = records.drop_last();
    let s = source(records.last(), wanted);
    let name = json::json_text(records.last(), "name"@);
    if s == Source::ThisModel && key == encode_utf8(name->Some_0) {
        assert(source(records[n], wanted) == Source::ThisModel);
    } else {
        scores_belong_to_the_model(rest, wanted, key);
        let i = choose|i: int|
            0 <= i < rest.len() && source(#[trigger] rest[i], wanted) == Source::ThisModel && key
                == encode_utf8(json::json_text(rest[i], "name"@)->Some_0) && json::json_text(
                rest[i],
                "model"@,
            ) == Some(wanted) && json::json_number(rest[i], "fit"@) == Some(
                fits_in(rest, wanted)[key],
            );
        assert(records[i] == rest[i]);
    }
}

/// A score that was recorded is found again: a name with a record of the model, or
/// with one that tells no model, has a score.
pub proof fn recorded_scores_are_found(records: Seq<Seq<char>>, wanted: Seq<char>, i: int)
    requires
        0 <= i < records.len(),
        source(records[i], wanted) == Source::ThisModel || source(records[i], wanted)
            == Source::NoModel,
    ensures
        fits_in(records, wanted).contains_key(
            encode_utf8(json::json_text(records[i], "name"@)->Some_0),
        ),
    decreases records.len(),
{
    if i < records.len() - 1 {
        recorded_scores_are_found(records.drop_last(), wanted, i);
        assert(records.drop_last()[i] == records[i]);
    }
}

/// A line is the record of a score of a model on a name; `fit` are the bits of the
/// number that it is read as.
pub open spec fn is_fit_record(
    line: Seq<char>,
    name: Seq<char>,
    fit: u64,
    model: Seq<char>,
) -> bool {
    &&& text::is_one_line(line)
    &&& line.len() > 0
    &&& line[0] == '{'
    &&& line.last() == '}'
    &&& json::is_json(line)
    &&& json::json_text(line, "name"@) == Some(name)
    &&& json::json_text(line, "model"@) == Some(model)
    &&& json::json_number(line, "fit"@) == Some(fit)
}

/// The record of a score, with the fit in the given digits; `None` where those are
/// no JSON number.
pub fn fit_record(name: &str, fit: &str, model: &str) -> (r: Option<String>)
    ensures
        match r {
            Some(line) => {
                &&& json::all_number_chars(fit@)
                &&& json::json_double(fit@) is Some
                &&& line@ == json::json_score("fit"@, fit@, "model"@, model@, "name"@, name@)
                &&& is_fit_record(line@, name@, json::json_double(fit@)->Some_0, model@)
            },
            None => !json::all_number_chars(fit@) || json::json_double(fit@) is None,
        },
{
    if !json::number_chars_only(fit) {
        return None;
    }
    let line = json::frame_score("fit", fit, "model", model, "name", name);
    proof {
        reveal_strlit("fit");
        reveal_strlit("model");
        reveal_strlit("name");
        assert("fit"@[0] != "model"@[0] && "fit"@[0] != "name"@[0] && "model"@[0] != "name"@[0]);
        json::a_score_is_one_line("fit"@, fit@, "model"@, model@, "name"@, name@);
    }
    match json::read_score(line.as_str(), "fit", fit, "model", model, "name", name) {
        Some(_) => Some(line),
        None => None,
    }
}

/// What is written to the score journal is read back: a score that is appended is
/// found on the next run for the model that gave it, leaves all others as they
/// were, and is never found for another model.
pub proof fn recorded_scores_are_read_back(
    t: Seq<char>,
    line: Seq<char>,
    name: Seq<char>,
    fit: u64,
    model: Seq<char>,
    other: Seq<char>,
)
    requires
        t.len() == 0 || t.last() == '\n',
        is_fit_record(line, name, fit, model),
        other != model,
    ensures
        is_readable(records_of(t + line.push('\n'))) == is_readable(records_of(t)),
        fits_in(records_of(t + line.push('\n')), model) == fits_in(records_of(t), model).insert(
            encode_utf8(name),
            fit,
        ),
        fits_in(records_of(t + line.push('\n')), other) == fits_in(records_of(t), other),
{
    lemma_record_appended(t, line);
    let before = records_of(t);
    assert(before.push(line).drop_last() =~= before);
}

// Descriptions

/// The description was made by this model with this prompt.
pub open spec fn is_current(v: Verdict, model: Seq<char>, prompt: Seq<char>) -> bool {
    v.model@ == model && v.prompt@ == prompt
}

/// The descriptions among `rows` that were made by a model with a prompt; the
/// last one of a name counts.
pub open spec fn current_in(rows: Seq<Verdict>, model: Seq<char>, prompt: Seq<char>) -> Map<
    Seq<u8>,
    Verdict,
>
    decreases rows.len(),
{
    if rows.len() == 0 {
        Map::empty()
    } else {
        let before = current_in(rows.drop_last(), model, prompt);
        if is_current(rows.last(), model, prompt) {
            before.insert(encode_utf8(rows.last().name@), rows.last())
        } else {
            before
        }
    }
}

/// The number of descriptions among `rows` made by another model or with another
/// prompt.
pub open spec fn stale_in(rows: Seq<Verdict>, model: Seq<char>, prompt: Seq<char>) -> nat
    decreases rows.len(),
{
    if rows.len() == 0 {
        0
    } else {
        stale_in(rows.drop_last(), model, prompt) + (if is_current(rows.last(), model, prompt) {
            0nat
        } else {
            1nat
        })
    }
}

/// Existing descriptions restricted to the current (model, prompt) pair, and the
/// number of the others.
pub fn load_judged(rows: Vec<Verdict>, model: &str, prompt: &str) -> (r: (KeyedMap<Verdict>, usize))
    ensures
        r.0@ == current_in(rows@, model@, prompt@),
        r.1 == stale_in(rows@, model@, prompt@),
{
    let ghost all = rows@;
    let n = rows.len();
    let mut map: KeyedMap<Verdict> = KeyedMap::new();
    let mut stale: usize = 0;
    assert(all.take(0) =~= Seq::empty());
    for v in it: rows
        invariant
            it.seq() == all,
            n == all.len(),
            map@ == current_in(all.take(it.index()), model@, prompt@),
            stale == stale_in(all.take(it.index()), model@, prompt@),
            stale <= it.index() <= n,
    {
        let ghost i = it.index();
        assert(all.take(i + 1).drop_last() =~= all.take(i));
        assert(all.take(i + 1).last() == v);
        if text::same_text(v.model.as_str(), model) && text::same_text(v.prompt.as_str(), prompt) {
            map.insert(names::bytes_vec(v.name.as_str()), v);
        } else {
            stale = stale + 1;
        }
    }
    assert(all.take(all.len() as int) =~= all);
    (map, stale)
}

/// Changing the model or the prompt invalidates what was kept: a description
/// found for a pair was made by that pair, and it is about the name it is found
/// under.
pub proof fn descriptions_belong_to_the_pair(
    rows: Seq<Verdict>,
    model: Seq<char>,
    prompt: Seq<char>,
    key: Seq<u8>,
)
    requires
        current_in(rows, model, prompt).contains_key(key),
    ensures
        is_current(current_in(rows, model, prompt)[key], model, prompt),
        encode_utf8(current_in(rows, model, prompt)[key].name@) == key,
        rows.contains(current_in(rows, model, prompt)[key]),
    decreases rows.len(),
{
    let v = rows.last();
    let rest = rows.drop_last();
    if is_current(v, model, prompt) && encode_utf8(v.name@) == key {
        assert(rows[rows.len() - 1] == v);
    } else {
        descriptions_belong_to_the_pair(rest, model, prompt, key);
        let found = current_in(rest, model, prompt)[key];
        let i = choose|i: int| 0 <= i < rest.len() && rest[i] == found;
        assert(rows[i] == found);
    }
}

/// A description that was recorded is found again: a name described by the model
/// with the prompt has a description.
pub proof fn recorded_descriptions_are_found(
    rows: Seq<Verdict>,
    model: Seq<char>,
    prompt: Seq<char>,
    i: int,
)
    requires
        0 <= i < rows.len(),
        is_current(rows[i], model, prompt),
    ensures
        current_in(rows, model, prompt).contains_key(encode_utf8(rows[i].name@)),
    decreases rows.len(),
{
    if i < rows.len() - 1 {
        recorded_descriptions_are_found(rows.drop_last(), model, prompt, i);
        assert(rows.drop_last()[i] == rows[i]);
    }
}

// Output rows

/// The row of a candidate, given its score in digits.
pub fn candidate_row(name: &str, score: &str) -> (r: String)
    ensures
        r@ == "{\"name\":\""@ + name@ + "\",\"score\":"@ + score@ + "}"@,
        text::is_one_line(name@) && text::is_one_line(score@) ==> text::is_one_line(r@),
{
    proof {
        reveal_strlit("{\"name\":\"");
        reveal_strlit("\",\"score\":");
        reveal_strlit("}");
    }
    let mut r = text::copy_text("{\"name\":\"");
    r.append(name);
    r.append("\",\"score\":");
    r.append(score);
    r.append("}");
    r
}

/// The row of a selected name, given its place, counted from zero, and its fit in
/// digits. The first `keep` names are the finalists; rank and fit let that cutoff
/// move later without asking the model again.
pub fn selected_row(place: usize, name: &str, fit: &str, keep: usize) -> (r: String)
    requires
        place < usize::MAX,
    ensures
        r@ == "{\"rank\":"@ + text::decimal_digits((place + 1) as nat) + ",\"name\":\""@ + name@
            + "\",\"fit\":"@ + fit@ + ",\"finalist\":"@ + (if place < keep {
            "true"@
        } else {
            "false"@
        }) + "}"@,
        text::is_one_line(name@) && text::is_one_line(fit@) ==> text::is_one_line(r@),
{
    proof {
        reveal_strlit("{\"rank\":");
        reveal_strlit(",\"name\":\"");
        reveal_strlit("\",\"fit\":");
        reveal_strlit(",\"finalist\":");
        reveal_strlit("true");
        reveal_strlit("false");
        reveal_strlit("}");
        text::digits_are_one_line((place + 1) as nat);
    }
    let mut r = text::copy_text("{\"rank\":");
    r.append(text::decimal(place + 1).as_str());
    r.append(",\"name\":\"");
    r.append(name);
    r.append("\",\"fit\":");
    r.append(fit);
    r.append(",\"finalist\":");
    r.append(
        if place < keep {
            "true"
        } else {
            "false"
        },
    );
    r.append("}");
    r
}

// What the journals come to

/// The records of a text behind another one, whose last line is ended, come behind
/// the records of that one.
pub proof fn records_of_texts_in_a_row(t: Seq<char>, more: Seq<char>)
    requires
        t.len() == 0 || t.last() == '\n',
    ensures
        records_of(t + more) == records_of(t) + records_of(more),
{
    text::lines_of_texts_in_a_row(t, more);
    Seq::filter_distributes_over_add(text::lines_of(t), text::lines_of(more), is_record());
}

proof fn lemma_records_of_line(t: Seq<char>, line: Seq<char>)
    requires
        text::lines_of(t) == seq![line],
    ensures
        (exists|i: int| 0 <= i < line.len() && !text::is_white_space(#[trigger] line[i]))
            ==> records_of(t) == seq![line],
        (forall|i: int| 0 <= i < line.len() ==> text::is_white_space(#[trigger] line[i]))
            ==> records_of(t).len() == 0,
{
    let one = seq![line];
    let p = is_record();
    reveal(Seq::filter);
    assert(one.drop_last() =~= Seq::<Seq<char>>::empty());
    assert(one.drop_last().filter(p) =~= Seq::<Seq<char>>::empty());
    assert(one.filter(p) =~= if p(one.last()) {
        one
    } else {
        Seq::empty()
    });
    let (a, b) = text::texts_have_a_trimmed_middle(line);
    if text::trimmed(line).len() == 0 {
        assert forall|i: int| 0 <= i < line.len() implies text::is_white_space(
            #[trigger] line[i],
        ) by {
            if i < a.len() {
                assert(line[i] == a[i]);
            } else {
                assert(line[i] == b[i - a.len()]);
            }
        }
    } else {
        assert(line[a.len() as int] == text::trimmed(line)[0]);
    }
}

/// A line is a record exactly when something other than white space stands on it,
/// and is then kept as it is, without its ending.
pub proof fn lines_with_something_on_them_are_records(line: Seq<char>)
    requires
        !line.contains('\n'),
        line.len() > 0,
        line.last() != '\r',
    ensures
        (exists|i: int| 0 <= i < line.len() && !text::is_white_space(#[trigger] line[i])) ==> {
            &&& records_of(line) == seq![line]
            &&& records_of(line.push('\n')) == seq![line]
            &&& records_of(line.push('\r').push('\n')) == seq![line]
        },
        (forall|i: int| 0 <= i < line.len() ==> text::is_white_space(#[trigger] line[i])) ==> {
            &&& records_of(line).len() == 0
            &&& records_of(line.push('\n')).len() == 0
            &&& records_of(line.push('\r').push('\n')).len() == 0
        },
{
    text::lines_of_one_line(line);
    lemma_records_of_line(line, line);
    lemma_records_of_line(line.push('\n'), line);
    lemma_records_of_line(line.push('\r').push('\n'), line);
}

/// What is reported of a journal that cannot be read is a record of it that is no
/// JSON, where all records before it are, with what the parser says of it; and a
/// journal that can be read is never reported.
pub proof fn the_first_unreadable_record_is_reported(records: Seq<Seq<char>>, bad: BadRecord)
    requires
        is_report(records, bad),
    ensures
        !is_readable(records),
        exists|i: int|
            0 <= i < records.len() && #[trigger] records[i] == bad.line@ && is_readable(
                records.take(i),
            ),
        json::json_complaint(bad.line@) == Some(bad.reason@),
{
    let i = choose|i: int| #[trigger]
        is_first_unreadable(records, i) && bad.line@ == records[i] && json::json_complaint(
            records[i],
        ) == Some(bad.reason@);
    assert forall|j: int| 0 <= j < records.take(i).len() implies json::is_json(
        #[trigger] records.take(i)[j],
    ) by {
        assert(records.take(i)[j] == records[j]);
    }
    assert(records[i] == bad.line@ && is_readable(records.take(i)));
}

/// The record tells `word` of the name with these bytes.
pub open spec fn tells(record: Seq<char>, key: Seq<u8>, word: Seq<char>) -> bool {
    &&& json::json_text(record, "name"@) is Some
    &&& encode_utf8(json::json_text(record, "name"@)->Some_0) == key
    &&& json::json_text(record, "verdict"@) == Some(word)
}

/// The record tells that the name with these bytes is free, or that it is taken.
pub open spec fn is_definite(record: Seq<char>, key: Seq<u8>) -> bool {
    tells(record, key, "free"@) || tells(record, key, "taken"@)
}

proof fn lemma_one_more_record(records: Seq<Seq<char>>, key: Seq<u8>)
    requires
        records.len() > 0,
    ensures
        tells(records.last(), key, "free"@) ==> verdicts_in(records).contains_key(key)
            && verdicts_in(records)[key] == Availability::Free,
        tells(records.last(), key, "taken"@) ==> verdicts_in(records).contains_key(key)
            && verdicts_in(records)[key] == Availability::Taken,
        !is_definite(records.last(), key) ==> {
            &&& verdicts_in(records).contains_key(key) == verdicts_in(
                records.drop_last(),
            ).contains_key(key)
            &&& verdicts_in(records.drop_last()).contains_key(key) ==> verdicts_in(records)[key]
                == verdicts_in(records.drop_last())[key]
        },
{
    reveal_strlit("free");
    reveal_strlit("taken");
    assert("free"@.len() == 4 && "taken"@.len() == 5);
}

/// The last record that tells free or taken of a name decides what is known of it.
pub proof fn the_last_definite_verdict_counts(records: Seq<Seq<char>>, key: Seq<u8>, i: int)
    requires
        0 <= i < records.len(),
        is_definite(records[i], key),
        forall|j: int| i < j < records.len() ==> !is_definite(#[trigger] records[j], key),
    ensures
        verdicts_in(records).contains_key(key),
        verdicts_in(records)[key] == Availability::Free <==> tells(records[i], key, "free"@),
        verdicts_in(records)[key] == Availability::Taken <==> tells(records[i], key, "taken"@),
    decreases records.len(),
{
    reveal_strlit("free");
    reveal_strlit("taken");
    assert("free"@.len() == 4 && "taken"@.len() == 5);
    lemma_one_more_record(records, key);
    let n = records.len() - 1;
    if i < n {
        let rest = records.drop_last();
        assert forall|j: int| i < j < rest.len() implies !is_definite(#[trigger] rest[j], key) by {
            assert(!is_definite(records[j], key));
        }
        assert(rest[i] == records[i]);
        assert(!is_definite(records[n], key));
        the_last_definite_verdict_counts(rest, key, i);
    }
}

/// Nothing is known of a name of which no record tells free or taken.
pub proof fn names_without_a_verdict_are_not_known(records: Seq<Seq<char>>, key: Seq<u8>)
    requires
        forall|j: int| 0 <= j < records.len() ==> !is_definite(#[trigger] records[j], key),
    ensures
        !verdicts_in(records).contains_key(key),
    decreases records.len(),
{
    if records.len() > 0 {
        let rest = records.drop_last();
        lemma_one_more_record(records, key);
        assert(!is_definite(records[records.len() - 1], key));
        assert forall|j: int| 0 <= j < rest.len() implies !is_definite(#[trigger] rest[j], key) by {
            assert(!is_definite(records[j], key));
        }
        names_without_a_verdict_are_not_known(rest, key);
    }
}

/// The line that is appended for a domain holds its name, and one of three words for
/// what is known of it.
pub proof fn availability_is_told_in_words(line: Seq<char>, name: Seq<char>, a: Availability)
    requires
        is_verdict_record(line, name, a),
    ensures
        line == "{\"name\":"@ + json::json_string(name) + ",\"verdict\":\""@ + (match a {
            Availability::Free => "free"@,
            Availability::Taken => "taken"@,
            Availability::Unknown => "unknown"@,
        }) + "\"}"@,
{
    reveal_strlit("{\"name\":");
    reveal_strlit(",\"verdict\":\"");
    reveal_strlit("\"}");
    reveal_strlit("name");
    reveal_strlit("verdict");
    reveal_strlit("free");
    reveal_strlit("taken");
    reveal_strlit("unknown");
    json::plain_texts_are_not_escaped("name"@);
    json::plain_texts_are_not_escaped("verdict"@);
    json::plain_texts_are_not_escaped(word_for(a));
    assert(line =~= "{\"name\":"@ + json::json_string(name) + ",\"verdict\":\""@ + word_for(a)
        + "\"}"@);
}

/// The line that is appended for a score holds the digits of the fit as they are, the
/// model and the name.
pub proof fn scores_are_told_in_digits(fit: Seq<char>, model: Seq<char>, name: Seq<char>)
    ensures
        json::json_score("fit"@, fit, "model"@, model, "name"@, name) == "{\"fit\":"@ + fit
            + ",\"model\":"@ + json::json_string(model) + ",\"name\":"@ + json::json_string(name)
            + "}"@,
{
    reveal_strlit("{\"fit\":");
    reveal_strlit(",\"model\":");
    reveal_strlit(",\"name\":");
    reveal_strlit("}");
    reveal_strlit("fit");
    reveal_strlit("model");
    reveal_strlit("name");
    json::plain_texts_are_not_escaped("fit"@);
    json::plain_texts_are_not_escaped("model"@);
    json::plain_texts_are_not_escaped("name"@);
    assert(json::json_score("fit"@, fit, "model"@, model, "name"@, name) =~= "{\"fit\":"@ + fit
        + ",\"model\":"@ + json::json_string(model) + ",\"name\":"@ + json::json_string(name)
        + "}"@);
}

/// The record has a name and a score.
pub open spec fn has_score(record: Seq<char>) -> bool {
    json::json_text(record, "name"@) is Some && json::json_number(record, "fit"@) is Some
}

/// The record has a score that may be used for a model: it tells no other one.
pub open spec fn has_score_for(record: Seq<char>, wanted: Seq<char>) -> bool {
    &&& has_score(record)
    &&& json::json_text(record, "model"@) is None || json::json_text(record, "model"@) == Some(
        wanted,
    )
}

/// The record has a score on the name with these bytes that may be used for a model.
pub open spec fn scores(record: Seq<char>, wanted: Seq<char>, key: Seq<u8>) -> bool {
    has_score_for(record, wanted) && encode_utf8(json::json_text(record, "name"@)->Some_0) == key
}

proof fn lemma_one_more_score(records: Seq<Seq<char>>, wanted: Seq<char>, key: Seq<u8>)
    requires
        records.len() > 0,
    ensures
        scores(records.last(), wanted, key) ==> fits_in(records, wanted).contains_key(key) && Some(
            fits_in(records, wanted)[key],
        ) == json::json_number(records.last(), "fit"@),
        !scores(records.last(), wanted, key) ==> {
            &&& fits_in(records, wanted).contains_key(key) == fits_in(
                records.drop_last(),
                wanted,
            ).contains_key(key)
            &&& fits_in(records.drop_last(), wanted).contains_key(key) ==> fits_in(
                records,
                wanted,
            )[key] == fits_in(records.drop_last(), wanted)[key]
        },
{
}

/// The last record with a score on a name that tells the model asked for, or none,
/// gives the score.
pub proof fn the_last_score_counts(
    records: Seq<Seq<char>>,
    wanted: Seq<char>,
    key: Seq<u8>,
    i: int,
)
    requires
        0 <= i < records.len(),
        scores(records[i], wanted, key),
        forall|j: int| i < j < records.len() ==> !scores(#[trigger] records[j], wanted, key),
    ensures
        fits_in(records, wanted).contains_key(key),
        Some(fits_in(records, wanted)[key]) == json::json_number(records[i], "fit"@),
    decreases records.len(),
{
    lemma_one_more_score(records, wanted, key);
    let n = records.len() - 1;
    if i < n {
        let rest = records.drop_last();
        assert forall|j: int| i < j < rest.len() implies !scores(
            #[trigger] rest[j],
            wanted,
            key,
        ) by {
            assert(!scores(records[j], wanted, key));
        }
        assert(rest[i] == records[i]);
        assert(!scores(records[n], wanted, key));
        the_last_score_counts(rest, wanted, key, i);
    }
}

/// A name without a record with a score that tells the model asked for, or none, has
/// no score.
pub proof fn names_without_a_record_have_no_score(
    records: Seq<Seq<char>>,
    wanted: Seq<char>,
    key: Seq<u8>,
)
    requires
        forall|j: int| 0 <= j < records.len() ==> !scores(#[trigger] records[j], wanted, key),
    ensures
        !fits_in(records, wanted).contains_key(key),
    decreases records.len(),
{
    if records.len() > 0 {
        let rest = records.drop_last();
        lemma_one_more_score(records, wanted, key);
        assert(!scores(records[records.len() - 1], wanted, key));
        assert forall|j: int| 0 <= j < rest.len() implies !scores(
            #[trigger] rest[j],
            wanted,
            key,
        ) by {
            assert(!scores(records[j], wanted, key));
        }
        names_without_a_record_have_no_score(rest, wanted, key);
    }
}

/// What is counted of a score journal: the records with a score that tell another
/// model, and those with a score that tell none.
pub proof fn scores_are_counted_by_model(records: Seq<Seq<char>>, wanted: Seq<char>)
    ensures
        count_of(records, wanted, Source::OtherModel) == records.filter(
            |r: Seq<char>|
                has_score(r) && json::json_text(r, "model"@) is Some && json::json_text(
                    r,
                    "model"@,
                ) != Some(wanted),
        ).len(),
        count_of(records, wanted, Source::NoModel) == records.filter(
            |r: Seq<char>| has_score(r) && json::json_text(r, "model"@) is None,
        ).len(),
    decreases records.len(),
{
    reveal(Seq::filter);
    if records.len() > 0 {
        scores_are_counted_by_model(records.drop_last(), wanted);
    }
}

/// Where the score of one record goes, by what it holds: nowhere without a name or
/// without a score; aside where it tells another model; else under its name.
pub proof fn scores_go_by_the_model(
    name: Option<Seq<char>>,
    fit: Option<u64>,
    model: Option<Seq<char>>,
    wanted: Seq<char>,
)
    ensures
        source_of(name, fit, model, wanted) == Source::NoScore <==> !(name is Some && fit is Some),
        name is Some && fit is Some ==> {
            &&& source_of(name, fit, model, wanted) == Source::NoModel <==> model is None
            &&& source_of(name, fit, model, wanted) == Source::ThisModel <==> model == Some(wanted)
        },
{
}

/// One more record changes what is known of its own name alone, and only with the
/// word for free or for taken.
pub proof fn one_more_verdict(
    known: Map<Seq<u8>, Availability>,
    name: Seq<char>,
    word: Seq<char>,
)
    ensures
        with_verdict(known, Some(name), Some("free"@)) == known.insert(
            encode_utf8(name),
            Availability::Free,
        ),
        with_verdict(known, Some(name), Some("taken"@)) == known.insert(
            encode_utf8(name),
            Availability::Taken,
        ),
        word != "free"@ && word != "taken"@ ==> with_verdict(known, Some(name), Some(word))
            == known,
        with_verdict(known, None, Some(word)) == known,
        with_verdict(known, Some(name), None) == known,
        with_verdict(known, None, None) == known,
{
    reveal_strlit("free");
    reveal_strlit("taken");
    assert("free"@.len() == 4 && "taken"@.len() == 5);
}

/// The last description of a name by the model with the prompt is the one that is
/// found, and the others are counted.
pub proof fn the_last_description_counts(
    rows: Seq<Verdict>,
    model: Seq<char>,
    prompt: Seq<char>,
    i: int,
)
    requires
        0 <= i < rows.len(),
        rows[i].model@ == model && rows[i].prompt@ == prompt,
        forall|j: int|
            i < j < rows.len() ==> !((#[trigger] rows[j]).model@ == model && rows[j].prompt@
                == prompt && rows[j].name@ == rows[i].name@),
    ensures
        current_in(rows, model, prompt).contains_key(encode_utf8(rows[i].name@)),
        current_in(rows, model, prompt)[encode_utf8(rows[i].name@)] == rows[i],
    decreases rows.len(),
{
    let n = rows.len() - 1;
    if i < n {
        let rest = rows.drop_last();
        assert forall|j: int| i < j < rest.len() implies !((#[trigger] rest[j]).model@ == model
            && rest[j].prompt@ == prompt && rest[j].name@ == rest[i].name@) by {
            assert(rest[j] == rows[j]);
        }
        the_last_description_counts(rest, model, prompt, i);
        assert(rest[i] == rows[i]);
        text::bytes_identify_text(rows[n].name@, rows[i].name@);
    }
}

/// Descriptions by another model or with another prompt are counted, every one of
/// them.
pub proof fn other_descriptions_are_counted(
    rows: Seq<Verdict>,
    model: Seq<char>,
    prompt: Seq<char>,
)
    ensures
        stale_in(rows, model, prompt) == rows.filter(
            |v: Verdict| v.model@ != model || v.prompt@ != prompt,
        ).len(),
    decreases rows.len(),
{
    reveal(Seq::filter);
    if rows.len() > 0 {
        other_descriptions_are_counted(rows.drop_last(), model, prompt);
    }
}

/// A description that is found under some bytes was made by the model with the
/// prompt, and of the name with those bytes.
pub proof fn found_descriptions_are_of_their_name(
    rows: Seq<Verdict>,
    model: Seq<char>,
    prompt: Seq<char>,
    key: Seq<u8>,
)
    requires
        current_in(rows, model, prompt).contains_key(key),
    ensures
        current_in(rows, model, prompt)[key].model@ == model,
        current_in(rows, model, prompt)[key].prompt@ == prompt,
        encode_utf8(current_in(rows, model, prompt)[key].name@) == key,
{
    descriptions_belong_to_the_pair(rows, model, prompt, key);
}

} // verus!
