//! Two-pass final selection by an LLM.
//!
//! A single pass with a powerful model over a thousand names would be expensive
//! for work that is 90% obvious rejection. The inexpensive model therefore
//! triages first (fit score only, in batches of 100), and only the survivors are
//! fully described.
//!
//! The LLM never sees the Markov score: this is an independent judgment that
//! should not be anchored to a purely phonetic metric.
//!
//! The requests are sent by the caller. What is sent, how often, and which
//! answers are accepted is decided here.

use crate::json;
use crate::keyed;
use crate::prompts;
use crate::text;
use vstd::prelude::*;
use vstd::utf8::*;

verus! {

/// Where the model runs.
#[derive(Clone, Copy, Debug, PartialEq, Eq, Structural)]
pub enum Provider {
    Openai,
    Ollama,
}

/// Standard endpoint of OpenAI.
pub const OPENAI_BASE: &'static str = "https://api.openai.com/v1";

/// Standard endpoint of a local Ollama.
pub const OLLAMA_BASE: &'static str = "http://localhost:11434/v1";

impl Provider {
    /// The provider's standard endpoint.
    pub open spec fn base(self) -> Seq<char> {
        match self {
            Provider::Openai => OPENAI_BASE@,
            Provider::Ollama => OLLAMA_BASE@,
        }
    }

    /// The provider's name.
    pub open spec fn label(self) -> Seq<char> {
        match self {
            Provider::Openai => "Openai"@,
            Provider::Ollama => "Ollama"@,
        }
    }

    /// The provider's standard endpoint.
    pub fn default_base(self) -> (r: &'static str)
        ensures
            r@ == self.base(),
    {
        match self {
            Provider::Openai => OPENAI_BASE,
            Provider::Ollama => OLLAMA_BASE,
        }
    }

    /// The model that scores names unless another one is chosen.
    pub fn default_triage_model(self) -> (r: &'static str)
        ensures
            r@ == match self {
                Provider::Openai => "gpt-5.4-mini"@,
                Provider::Ollama => "gpt-oss:20b"@,
            },
    {
        match self {
            Provider::Openai => "gpt-5.4-mini",
            Provider::Ollama => "gpt-oss:20b",
        }
    }

    /// The model that describes names unless another one is chosen.
    pub fn default_description_model(self) -> (r: &'static str)
        ensures
            r@ == match self {
                Provider::Openai => "gpt-5.5"@,
                Provider::Ollama => "gpt-oss:20b"@,
            },
    {
        match self {
            Provider::Openai => "gpt-5.5",
            Provider::Ollama => "gpt-oss:20b",
        }
    }

    /// The variable that may hold the provider's key.
    pub fn key_variable(self) -> (r: &'static str)
        ensures
            r@ == match self {
                Provider::Openai => "OPENAI_API_KEY"@,
                Provider::Ollama => "OLLAMA_API_KEY"@,
            },
    {
        match self {
            Provider::Openai => "OPENAI_API_KEY",
            Provider::Ollama => "OLLAMA_API_KEY",
        }
    }

    /// The name under which a model's results are kept: the model's own name at
    /// OpenAI's standard endpoint, and one that tells the provider and the
    /// endpoint everywhere else.
    pub open spec fn cache_key(self, api_base: Seq<char>, model: Seq<char>) -> Seq<char> {
        if self == Provider::Openai && api_base == OPENAI_BASE@ {
            model
        } else {
            self.label() + "@"@ + api_base + ":"@ + model
        }
    }

    /// The name under which a model's results are kept.
    pub fn cache_model(self, api_base: &str, model: &str) -> (r: String)
        ensures
            r@ == self.cache_key(api_base@, model@),
    {
        if matches!(self, Provider::Openai) && text::same_text(api_base, OPENAI_BASE) {
            return text::copy_text(model);
        }
        let mut r = text::copy_text(
            match self {
                Provider::Openai => "Openai",
                Provider::Ollama => "Ollama",
            },
        );
        r.append("@");
        r.append(api_base);
        r.append(":");
        r.append(model);
        r
    }
}

/// Two models of one provider at one endpoint never share their results.
pub proof fn cache_keys_tell_models_apart(p: Provider, api_base: Seq<char>, a: Seq<char>, b: Seq<char>)
    ensures
        p.cache_key(api_base, a) == p.cache_key(api_base, b) <==> a == b,
{
    let head = p.label() + "@"@ + api_base + ":"@;
    if p.cache_key(api_base, a) == p.cache_key(api_base, b) && head + a == head + b {
        assert((head + a).skip(head.len() as int) =~= a);
        assert((head + b).skip(head.len() as int) =~= b);
    }
}

/// A model of the same name at the same endpoint never shares its results with
/// one of the other provider.
pub proof fn cache_keys_tell_providers_apart(api_base: Seq<char>, other_base: Seq<char>, model: Seq<char>)
    ensures
        Provider::Openai.cache_key(api_base, model) != Provider::Ollama.cache_key(
            other_base,
            model,
        ),
{
    reveal_strlit("Openai");
    reveal_strlit("Ollama");
    reveal_strlit("@");
    reveal_strlit(":");
    let a = Provider::Openai.cache_key(api_base, model);
    let b = Provider::Ollama.cache_key(other_base, model);
    if api_base == OPENAI_BASE@ {
        assert(b.len() > a.len());
    } else {
        assert(a[1] == 'p');
        assert(b[1] == 'l');
    }
}

/// A model at one endpoint of a provider never shares its results with the model
/// of the same name at another endpoint.
pub proof fn cache_keys_tell_endpoints_apart(
    p: Provider,
    a: Seq<char>,
    b: Seq<char>,
    model: Seq<char>,
)
    ensures
        p.cache_key(a, model) == p.cache_key(b, model) <==> a == b,
{
    reveal_strlit("Openai");
    reveal_strlit("Ollama");
    reveal_strlit("@");
    reveal_strlit(":");
    let head = p.label() + "@"@;
    let x = head + a + ":"@ + model;
    let y = head + b + ":"@ + model;
    assert(x.len() > model.len() && y.len() > model.len());
    if x == y {
        assert(a.len() == b.len());
        assert(x.subrange(head.len() as int, (head.len() + a.len()) as int) =~= a);
        assert(y.subrange(head.len() as int, (head.len() + b.len()) as int) =~= b);
    }
}

/// The endpoint to use: the given one or the provider's own, without slashes at
/// its end. `None` when nothing is left of it.
pub fn resolve_base(provider: Provider, api_base: Option<&str>) -> (r: Option<String>)
    ensures
        ({
            let base = text::without_slashes(
                match api_base {
                    Some(b) => b@,
                    None => provider.base(),
                },
            );
            match r {
                Some(b) => base.len() > 0 && b@ == base,
                None => base.len() == 0,
            }
        }),
{
    let base = text::trim_slashes(
        match api_base {
            Some(b) => b,
            None => provider.default_base(),
        },
    );
    if base.as_str().is_empty() {
        None
    } else {
        Some(base)
    }
}

/// The parts of an address that decide whether it can be used.
#[derive(Debug)]
pub struct Address {
    pub scheme: String,
    pub username: String,
    pub password: Option<String>,
}

/// Scheme, user name and password.
pub type AddressParts = (Seq<char>, Seq<char>, Option<Seq<char>>);

impl Address {
    /// Scheme, user name and password.
    pub open spec fn parts(&self) -> AddressParts {
        (
            self.scheme@,
            self.username@,
            match self.password {
                Some(p) => Some(p@),
                None => None,
            },
        )
    }
}

/// Scheme, user name and password of an address, or what is wrong with it.
pub uninterp spec fn url_parts(url: Seq<char>) -> Result<
    (Seq<char>, Seq<char>, Option<Seq<char>>),
    Seq<char>,
>;

/// Takes an address apart. Claimed of `reqwest::Url::parse` and of the methods
/// `scheme`, `username` and `password` of what it returns: all of it depends on
/// the text of the address alone. What counts as an address is left to the parser.
#[verifier::external_body]
fn parse_url(url: &str) -> (r: Result<Address, String>)
    ensures
        match r {
            Ok(a) => url_parts(url@) == Ok::<AddressParts, Seq<char>>(a.parts()),
            Err(e) => url_parts(url@) == Err::<AddressParts, Seq<char>>(e@),
        },
{
    match reqwest::Url::parse(url) {
        Ok(u) => Ok(
            Address {
                scheme: u.scheme().to_owned(),
                username: u.username().to_owned(),
                password: u.password().map(str::to_owned),
            },
        ),
        Err(e) => Err(e.to_string()),
    }
}

/// What is known of the file that may hold a key.
#[derive(Debug)]
pub enum KeyFile {
    /// Its place is not known.
    NoHome,
    /// It could not be read; its path.
    Unreadable(String),
    /// Its path and what it holds.
    Read(String, String),
}

/// Why a client cannot be set up.
#[derive(Debug)]
pub enum JudgeError {
    EmptyBase,
    /// What the parser said.
    InvalidBase(String),
    NotHttp,
    Credentials,
    NoHome,
    /// No key in the environment, and no file at this path.
    NoKey(String),
    /// The key file at this path is empty.
    EmptyKeyFile(String),
}

impl JudgeError {
    /// The error in words.
    pub open spec fn text(&self) -> Seq<char> {
        match self {
            JudgeError::EmptyBase => "API base URL cannot be empty"@,
            JudgeError::InvalidBase(_) => "invalid API base URL"@,
            JudgeError::NotHttp => "API base URL must use HTTP or HTTPS"@,
            JudgeError::Credentials => "API credentials must not be embedded in the URL"@,
            JudgeError::NoHome => "HOME is unavailable"@,
            JudgeError::NoKey(p) => "no key found: neither OPENAI_API_KEY in the environment nor "@
                + p@,
            JudgeError::EmptyKeyFile(p) => p@ + " is empty"@,
        }
    }

    /// The error in words.
    pub fn message(&self) -> (r: String)
        ensures
            r@ == self.text(),
    {
        match self {
            JudgeError::EmptyBase => text::copy_text("API base URL cannot be empty"),
            JudgeError::InvalidBase(_) => text::copy_text("invalid API base URL"),
            JudgeError::NotHttp => text::copy_text("API base URL must use HTTP or HTTPS"),
            JudgeError::Credentials => text::copy_text(
                "API credentials must not be embedded in the URL",
            ),
            JudgeError::NoHome => text::copy_text("HOME is unavailable"),
            JudgeError::NoKey(p) => {
                let mut r = text::copy_text(
                    "no key found: neither OPENAI_API_KEY in the environment nor ",
                );
                r.append(p.as_str());
                r
            },
            JudgeError::EmptyKeyFile(p) => {
                let mut r = text::copy_text(p.as_str());
                r.append(" is empty");
                r
            },
        }
    }
}

/// The address may be used: a web address without credentials in it.
pub open spec fn is_plain_web(parts: AddressParts) -> bool {
    is_web(parts) && parts.1.len() == 0 && parts.2 is None
}

/// The scheme is that of a web address.
pub open spec fn is_web(parts: AddressParts) -> bool {
    parts.0 == "http"@ || parts.0 == "https"@
}

/// Decides on an address that has been taken apart.
pub fn accept_address(parsed: Result<Address, String>) -> (r: Result<(), JudgeError>)
    ensures
        match r {
            Ok(_) => parsed is Ok && is_plain_web(parsed->Ok_0.parts()),
            Err(JudgeError::InvalidBase(e)) => parsed is Err && e@ == parsed->Err_0@,
            Err(JudgeError::NotHttp) => parsed is Ok && !is_web(parsed->Ok_0.parts()),
            Err(JudgeError::Credentials) => parsed is Ok && is_web(parsed->Ok_0.parts())
                && !is_plain_web(parsed->Ok_0.parts()),
            Err(_) => false,
        },
{
    match parsed {
        Err(e) => Err(JudgeError::InvalidBase(e)),
        Ok(a) => {
            let scheme = a.scheme.as_str();
            if !text::same_text(scheme, "http") && !text::same_text(scheme, "https") {
                return Err(JudgeError::NotHttp);
            }
            if !a.username.as_str().is_empty() || a.password.is_some() {
                return Err(JudgeError::Credentials);
            }
            Ok(())
        },
    }
}

/// Address of the chat service below an endpoint.
pub open spec fn chat_url(api_base: Seq<char>) -> Seq<char> {
    text::without_slashes(api_base) + "/chat/completions"@
}

/// An endpoint can be used.
pub open spec fn is_usable_base(api_base: Seq<char>) -> bool {
    &&& text::without_slashes(api_base).len() > 0
    &&& url_parts(chat_url(api_base)) is Ok
    &&& is_plain_web(url_parts(chat_url(api_base))->Ok_0)
}

/// An endpoint was refused for the reason that holds of it.
pub open spec fn refuses_base(api_base: Seq<char>, e: JudgeError) -> bool {
    let empty = text::without_slashes(api_base).len() == 0;
    let parts = url_parts(chat_url(api_base));
    match e {
        JudgeError::EmptyBase => empty,
        JudgeError::InvalidBase(said) => !empty && parts is Err && said@ == parts->Err_0,
        JudgeError::NotHttp => !empty && parts is Ok && !is_web(parts->Ok_0),
        JudgeError::Credentials => !empty && parts is Ok && is_web(parts->Ok_0) && !is_plain_web(
            parts->Ok_0,
        ),
        _ => false,
    }
}

/// Address of the chat service below an endpoint.
pub fn endpoint(api_base: &str) -> (r: Result<String, JudgeError>)
    ensures
        match r {
            Ok(url) => is_usable_base(api_base@) && url@ == chat_url(api_base@),
            Err(e) => refuses_base(api_base@, e),
        },
{
    let mut url = text::trim_slashes(api_base);
    if url.as_str().is_empty() {
        return Err(JudgeError::EmptyBase);
    }
    url.append("/chat/completions");
    match accept_address(parse_url(url.as_str())) {
        Ok(_) => Ok(url),
        Err(e) => Err(e),
    }
}

/// A key without the white space around it; `None` when there is none.
pub open spec fn usable(value: Option<Seq<char>>) -> Option<Seq<char>> {
    match value {
        Some(v) => if text::trimmed(v).len() > 0 {
            Some(text::trimmed(v))
        } else {
            None
        },
        None => None,
    }
}

/// A key without the white space around it; `None` when there is none.
pub fn usable_key(value: Option<&str>) -> (r: Option<String>)
    ensures
        json::text_in(r) == usable(text_at(value)),
{
    match value {
        None => None,
        Some(v) => {
            let k = text::trim(v);
            if k.as_str().is_empty() {
                None
            } else {
                Some(k)
            }
        },
    }
}

/// The text of an optional text.
pub open spec fn text_at(value: Option<&str>) -> Option<Seq<char>> {
    match value {
        Some(v) => Some(v@),
        None => None,
    }
}

/// The key found is the right one, or the reason given for finding none is. The
/// environment takes precedence over the file, and only OpenAI needs a key.
pub open spec fn is_key_choice(
    provider: Provider,
    environment: Option<Seq<char>>,
    file: KeyFile,
    r: Result<Option<String>, JudgeError>,
) -> bool {
    if provider == Provider::Ollama || usable(environment) is Some {
        r is Ok && json::text_in(r->Ok_0) == usable(environment)
    } else {
        match file {
            KeyFile::NoHome => r is Err && r->Err_0 is NoHome,
            KeyFile::Unreadable(path) => r is Err && r->Err_0 is NoKey && r->Err_0->NoKey_0@
                == path@,
            KeyFile::Read(path, content) => match usable(Some(content@)) {
                Some(k) => r is Ok && json::text_in(r->Ok_0) == Some(k),
                None => r is Err && r->Err_0 is EmptyKeyFile && r->Err_0->EmptyKeyFile_0@ == path@,
            },
        }
    }
}

/// The key file counts: a key is needed, and the environment has none.
pub open spec fn is_file_needed(provider: Provider, environment: Option<Seq<char>>) -> bool {
    provider == Provider::Openai && usable(environment) is None
}

/// Tells whether the key file has to be read.
pub fn needs_key_file(provider: Provider, environment: Option<&str>) -> (r: bool)
    ensures
        r == is_file_needed(provider, text_at(environment)),
{
    matches!(provider, Provider::Openai) && usable_key(environment).is_none()
}

/// Where the key file is not needed, it makes no difference what it holds.
pub proof fn an_unneeded_file_makes_no_difference(
    provider: Provider,
    environment: Option<Seq<char>>,
    a: KeyFile,
    b: KeyFile,
    r: Result<Option<String>, JudgeError>,
)
    requires
        !is_file_needed(provider, environment),
    ensures
        is_key_choice(provider, environment, a, r) == is_key_choice(provider, environment, b, r),
{
}

/// Finds the key in the environment, then in the file.
pub fn choose_key(provider: Provider, environment: Option<&str>, file: &KeyFile) -> (r: Result<
    Option<String>,
    JudgeError,
>)
    ensures
        is_key_choice(provider, text_at(environment), *file, r),
{
    let given = usable_key(environment);
    if matches!(provider, Provider::Ollama) || given.is_some() {
        return Ok(given);
    }
    match file {
        KeyFile::NoHome => Err(JudgeError::NoHome),
        KeyFile::Unreadable(path) => Err(JudgeError::NoKey(text::copy_text(path.as_str()))),
        KeyFile::Read(path, content) => match usable_key(Some(content.as_str())) {
            Some(k) => Ok(Some(k)),
            None => Err(JudgeError::EmptyKeyFile(text::copy_text(path.as_str()))),
        },
    }
}

/// Where requests go, and the key they carry.
#[derive(Debug)]
pub struct Judge {
    pub api_url: String,
    pub key: Option<String>,
}

impl Judge {
    /// Sets a client up for an endpoint, given what the environment and the key
    /// file hold. The endpoint is looked at first.
    pub fn new(
        provider: Provider,
        api_base: &str,
        environment: Option<&str>,
        file: &KeyFile,
    ) -> (r: Result<Judge, JudgeError>)
        ensures
            match r {
                Ok(j) => {
                    &&& is_usable_base(api_base@)
                    &&& j.api_url@ == chat_url(api_base@)
                    &&& is_key_choice(provider, text_at(environment), *file, Ok(j.key))
                },
                Err(e) => {
                    ||| refuses_base(api_base@, e)
                    ||| is_usable_base(api_base@) && is_key_choice(
                        provider,
                        text_at(environment),
                        *file,
                        Err(e),
                    )
                },
            },
    {
        match endpoint(api_base) {
            Err(e) => Err(e),
            Ok(api_url) => match choose_key(provider, environment, file) {
                Err(e) => Err(e),
                Ok(key) => Ok(Judge { api_url, key }),
            },
        }
    }
}

/// The scoring prompt for a brief.
pub open spec fn triage_prompt(brief: Seq<char>) -> Seq<char> {
    prompts::TRIAGE_BEFORE@ + brief + prompts::TRIAGE_AFTER@
}

/// The scoring prompt for a brief.
pub fn triage_system(brief: &str) -> (r: String)
    ensures
        r@ == triage_prompt(brief@),
{
    let mut r = text::copy_text(prompts::TRIAGE_BEFORE);
    r.append(brief);
    r.append(prompts::TRIAGE_AFTER);
    r
}

/// The description prompt for a brief.
pub open spec fn describe_prompt(brief: Seq<char>) -> Seq<char> {
    prompts::DESCRIBE_BEFORE@ + brief + prompts::DESCRIBE_AFTER@
}

/// Pass-2 prompt, isolated so it can be fingerprinted: it determines the
/// resulting judgment just as much as the model does.
pub fn describe_system(brief: &str) -> (r: String)
    ensures
        r@ == describe_prompt(brief@),
{
    let mut r = text::copy_text(prompts::DESCRIBE_BEFORE);
    r.append(brief);
    r.append(prompts::DESCRIBE_AFTER);
    r
}

/// The fingerprint of a model and a brief.
pub open spec fn fingerprint(model: Seq<char>, brief: Seq<char>) -> Seq<char> {
    text::hex_digits(
        keyed::hash_of(encode_utf8(model) + encode_utf8(describe_prompt(brief))) as int,
        16,
    )
}

/// Short fingerprint of the (model, prompt) pair. The brief is included in the
/// prompt, so changing it also invalidates descriptions, as intended.
pub fn prompt_id(model: &str, brief: &str) -> (r: String)
    ensures
        r@ == fingerprint(model@, brief@),
{
    let system = describe_system(brief);
    let h = keyed::hash_bytes(model.as_bytes());
    let h = keyed::hash_more(h, system.as_str().as_bytes(), Ghost(encode_utf8(model@)));
    text::hex16(h)
}

/// A request to the chat service, given its texts as JSON strings and the
/// temperature as a JSON number. The answer is to be one JSON object.
pub open spec fn request_text(
    model: Seq<char>,
    system: Seq<char>,
    user: Seq<char>,
    temperature: Option<Seq<char>>,
) -> Seq<char> {
    "{\"messages\":[{\"content\":"@ + system + ",\"role\":\"system\"},{\"content\":"@ + user
        + ",\"role\":\"user\"}],\"model\":"@ + model
        + ",\"response_format\":{\"type\":\"json_object\"}"@ + (match temperature {
        Some(t) => ",\"temperature\":"@ + t,
        None => Seq::empty(),
    }) + "}"@
}

/// Puts a request together from JSON strings and a JSON number.
pub fn frame_request(model: &str, system: &str, user: &str, temperature: Option<&str>) -> (r:
    String)
    ensures
        r@ == request_text(model@, system@, user@, text_at(temperature)),
{
    let mut r = text::copy_text("{\"messages\":[{\"content\":");
    r.append(system);
    r.append(",\"role\":\"system\"},{\"content\":");
    r.append(user);
    r.append(",\"role\":\"user\"}],\"model\":");
    r.append(model);
    r.append(",\"response_format\":{\"type\":\"json_object\"}");
    let ghost before = r@;
    match temperature {
        Some(t) => {
            r.append(",\"temperature\":");
            r.append(t);
            assert(r@ =~= before + (",\"temperature\":"@ + t@));
        },
        None => {
            assert(r@ =~= before + Seq::<char>::empty());
        },
    }
    r.append("}");
    r
}

/// A request that asks a model, under a system prompt, about some names. A
/// temperature is sent only when one was chosen: reasoning models accept only
/// their default value and reject the request.
pub fn ask_request(
    model: &str,
    system: &str,
    names: &[String],
    temperature: Option<&str>,
) -> (r: String)
    ensures
        r@ == request_text(
            json::json_string(model@),
            json::json_string(system@),
            json::json_string(text::joined(text::texts(names@))),
            text_at(temperature),
        ),
{
    let user = text::join_lines(names);
    frame_request(
        json::to_json_string(model).as_str(),
        json::to_json_string(system).as_str(),
        json::to_json_string(user.as_str()).as_str(),
        temperature,
    )
}

/// No retry can fix the failure: rejected key, nonexistent model, exhausted
/// quota, or malformed request.
pub open spec fn is_fatal(status: u16, body: Seq<char>) -> bool {
    ||| status == 400 || status == 401 || status == 403 || status == 404
    ||| text::has_part(body, "insufficient_quota"@)
    ||| text::has_part(body, "billing"@)
}

/// What is said of a response that is no success. `shown` is the status as it is
/// shown to people.
pub open spec fn failure_text(status: u16, shown: Seq<char>, body: Seq<char>) -> Seq<char> {
    (if is_fatal(status, body) {
        "[permanent] "@
    } else {
        Seq::empty()
    }) + "the API returned "@ + shown + ": "@ + body
}

/// Looks at the status of a response: `None` on success, else what to report.
pub fn failure(status: u16, shown: &str, body: &str) -> (r: Option<String>)
    ensures
        match r {
            None => 200 <= status <= 299,
            Some(m) => !(200 <= status <= 299) && m@ == failure_text(status, shown@, body@),
        },
{
    if 200 <= status && status <= 299 {
        return None;
    }
    let fatal = status == 400 || status == 401 || status == 403 || status == 404
        || text::contains_text(body, "insufficient_quota") || text::contains_text(body, "billing");
    let mut r = if fatal {
        text::copy_text("[permanent] ")
    } else {
        String::new()
    };
    r.append("the API returned ");
    r.append(shown);
    r.append(": ");
    r.append(body);
    Some(r)
}

/// The report of a failure is marked as one that no retry can fix.
pub open spec fn is_permanent(message: Seq<char>) -> bool {
    text::has_part(message, "[permanent]"@)
}

/// Returns true for errors no retry can fix: rejected key, nonexistent model,
/// exhausted quota, or malformed request.
pub fn permanent(message: &str) -> (r: bool)
    ensures
        r == is_permanent(message@),
{
    text::contains_text(message, "[permanent]")
}

/// Every failure that no retry can fix is reported as such.
pub proof fn fatal_failures_are_permanent(status: u16, shown: Seq<char>, body: Seq<char>)
    requires
        is_fatal(status, body),
    ensures
        is_permanent(failure_text(status, shown, body)),
{
    reveal_strlit("[permanent]");
    reveal_strlit("[permanent] ");
    let m = failure_text(status, shown, body);
    assert(m.subrange(0, "[permanent]"@.len() as int) =~= "[permanent]"@);
    assert(text::part_at(m, "[permanent]"@, 0));
}

/// What to do after a failed attempt.
#[derive(Debug, Clone, Copy, PartialEq, Eq, Structural)]
pub enum AfterFailure {
    /// Report the failure as it is.
    Stop,
    /// Wait for so many seconds, then try again.
    RetryAfter(u64),
    /// Report that all attempts failed, and the last failure.
    GiveUp,
}

/// Number of attempts made for one request.
pub const ATTEMPTS: u32 = 3;

/// What is said of a request that was given up, before its last failure.
pub const GAVE_UP: &'static str = "three unsuccessful attempts";

/// What to do after attempt number `attempt`, counted from zero, failed with
/// `message`.
pub open spec fn step_after(attempt: u32, message: Seq<char>) -> AfterFailure {
    if is_permanent(message) {
        AfterFailure::Stop
    } else if attempt == 0 {
        AfterFailure::RetryAfter(10)
    } else if attempt == 1 {
        AfterFailure::RetryAfter(20)
    } else {
        AfterFailure::GiveUp
    }
}

/// Decides what to do after attempt number `attempt`, counted from zero, failed
/// with `message`. A lost batch means names that silently disappear from the
/// result, so transient failures are retried. Waiting will not fix an invalid key
/// or an exhausted quota, so those are not.
pub fn after_failure(attempt: u32, message: &str) -> (r: AfterFailure)
    requires
        attempt < ATTEMPTS,
    ensures
        r == step_after(attempt, message@),
{
    if permanent(message) {
        AfterFailure::Stop
    } else if attempt == 0 {
        AfterFailure::RetryAfter(10)
    } else if attempt == 1 {
        AfterFailure::RetryAfter(20)
    } else {
        AfterFailure::GiveUp
    }
}

/// How a request ends, with the number of the attempt that ends it.
#[derive(Debug, Clone, Copy, PartialEq, Eq, Structural)]
pub enum Ending {
    /// With the answer to that attempt.
    Answered(u32),
    /// With the failure of that attempt, as it is.
    Refused(u32),
    /// With the failure of that attempt, as the last of all.
    GivenUp(u32),
}

impl Ending {
    /// The attempt that ends the request.
    pub open spec fn attempt(self) -> u32 {
        match self {
            Ending::Answered(i) => i,
            Ending::Refused(i) => i,
            Ending::GivenUp(i) => i,
        }
    }
}

/// How a request ends whose attempts, from number `attempt` on, come out as
/// `outcomes` says: `None` for an answer, and what a failure is reported with.
/// `None` while more attempts are to be made.
pub open spec fn ending(attempt: u32, outcomes: Seq<Option<Seq<char>>>) -> Option<Ending>
    decreases outcomes.len(),
{
    if outcomes.len() == 0 {
        None
    } else {
        match outcomes[0] {
            None => Some(Ending::Answered(attempt)),
            Some(message) => match step_after(attempt, message) {
                AfterFailure::Stop => Some(Ending::Refused(attempt)),
                AfterFailure::GiveUp => Some(Ending::GivenUp(attempt)),
                AfterFailure::RetryAfter(_) => ending((attempt + 1) as u32, outcomes.drop_first()),
            },
        }
    }
}

/// The attempt failed in a way that a retry may fix.
pub open spec fn is_transient(outcome: Option<Seq<char>>) -> bool {
    outcome is Some && !is_permanent(outcome->Some_0)
}

/// All attempts before number `i` failed in a way that a retry may fix.
pub open spec fn transient_before(outcomes: Seq<Option<Seq<char>>>, i: int) -> bool {
    forall|j: int| 0 <= j < i ==> is_transient(#[trigger] outcomes[j])
}

/// The result of a request is its first answer or its first failure that no retry
/// can fix, whichever comes first within three attempts; if all three fail in a way
/// that a retry may fix, it is given up with the third failure. It always ends, and
/// nothing is tried after that.
pub proof fn requests_end_within_three_attempts(outcomes: Seq<Option<Seq<char>>>)
    requires
        outcomes.len() >= ATTEMPTS,
    ensures
        ending(0, outcomes) == ending(
            0,
            outcomes.take(ending(0, outcomes)->Some_0.attempt() + 1),
        ),
        match ending(0, outcomes) {
            Some(Ending::Answered(i)) => i < ATTEMPTS && outcomes[i as int] is None
                && transient_before(outcomes, i as int),
            Some(Ending::Refused(i)) => i < ATTEMPTS && outcomes[i as int] is Some && is_permanent(
                outcomes[i as int]->Some_0,
            ) && transient_before(outcomes, i as int),
            Some(Ending::GivenUp(i)) => i == ATTEMPTS - 1 && transient_before(
                outcomes,
                ATTEMPTS as int,
            ),
            None => false,
        },
{
    reveal_with_fuel(ending, 4);
    let second = outcomes.drop_first();
    let third = second.drop_first();
    assert(second[0] == outcomes[1] && third[0] == outcomes[2]);
    let made = outcomes.take(ending(0, outcomes)->Some_0.attempt() + 1);
    assert(made[0] == outcomes[0]);
    if made.len() > 1 {
        assert(made.drop_first()[0] == outcomes[1]);
    }
    if made.len() > 2 {
        assert(made.drop_first().drop_first()[0] == outcomes[2]);
    }
}

// What the decisions come to

/// Results of OpenAI's own endpoint are kept under the name of the model, all others
/// under one that begins with the provider and goes on with the endpoint.
pub proof fn where_results_are_kept(api_base: Seq<char>, model: Seq<char>)
    ensures
        Provider::Openai.cache_key("https://api.openai.com/v1"@, model) == model,
        api_base != "https://api.openai.com/v1"@ ==> Provider::Openai.cache_key(api_base, model)
            == "Openai@"@ + api_base + ":"@ + model,
        Provider::Ollama.cache_key(api_base, model) == "Ollama@"@ + api_base + ":"@ + model,
        Provider::Openai.base() == "https://api.openai.com/v1"@,
        Provider::Ollama.base() == "http://localhost:11434/v1"@,
{
    reveal_strlit("Openai");
    reveal_strlit("Ollama");
    reveal_strlit("@");
    reveal_strlit("Openai@");
    reveal_strlit("Ollama@");
    assert("Openai"@ + "@"@ =~= "Openai@"@);
    assert("Ollama"@ + "@"@ =~= "Ollama@"@);
}

/// Requests go to the same address however many slashes the endpoint ends with, and
/// that address is the endpoint and the path of the chat service.
pub proof fn slashes_make_no_difference(base: Seq<char>, n: nat)
    requires
        base.len() > 0,
        base.last() != '/',
    ensures
        chat_url(base + Seq::new(n, |i: int| '/')) == base + "/chat/completions"@,
        is_usable_base(base + Seq::new(n, |i: int| '/')) == is_usable_base(base),
        forall|e: JudgeError|
            refuses_base(base + Seq::new(n, |i: int| '/'), e) == #[trigger] refuses_base(base, e),
{
    text::only_slashes_at_the_end_are_taken_off(base, n);
    text::only_slashes_at_the_end_are_taken_off(base, 0);
    assert(base + Seq::new(0, |i: int| '/') =~= base);
}

/// An endpoint is used exactly when something is left of it without its slashes,
/// its chat address is a web address, and no user name or password stands in it.
pub proof fn usable_endpoints_are_plain_web_addresses(base: Seq<char>)
    requires
        base.len() > 0,
        base.last() != '/',
    ensures
        is_usable_base(base) <==> match url_parts(base + "/chat/completions"@) {
            Ok((scheme, user, password)) => (scheme == "http"@ || scheme == "https"@) && user.len()
                == 0 && password is None,
            Err(_) => false,
        },
        !is_usable_base(Seq::empty()),
{
    slashes_make_no_difference(base, 0);
    assert(base + Seq::new(0, |i: int| '/') =~= base);
}

/// An endpoint is refused for what is wrong with it, and none that is used is
/// refused.
pub proof fn endpoints_are_refused_for_a_fault(base: Seq<char>, e: JudgeError)
    requires
        base.len() > 0,
        base.last() != '/',
        refuses_base(base, e),
    ensures
        !is_usable_base(base),
        match url_parts(base + "/chat/completions"@) {
            Err(said) => e is InvalidBase && e->InvalidBase_0@ == said,
            Ok((scheme, user, password)) => if scheme != "http"@ && scheme != "https"@ {
                e is NotHttp
            } else {
                e is Credentials && (user.len() > 0 || password is Some)
            },
        },
{
    slashes_make_no_difference(base, 0);
    assert(base + Seq::new(0, |i: int| '/') =~= base);
}

/// Of slashes alone nothing is left, and nothing else is said of them.
pub proof fn slashes_are_no_endpoint(n: nat, e: JudgeError)
    ensures
        !is_usable_base(Seq::new(n, |i: int| '/')),
        refuses_base(Seq::new(n, |i: int| '/'), e) <==> e is EmptyBase,
{
    let slashes = Seq::new(n, |i: int| '/');
    text::only_slashes_at_the_end_are_taken_off(Seq::empty(), n);
    assert(Seq::<char>::empty() + slashes =~= slashes);
}

/// The text of an optional text is there exactly when the text is.
pub proof fn the_text_of_an_optional_text(t: &str)
    ensures
        text_at(Some(t)) == Some(t@),
        text_at(None) is None,
{
}

/// Scheme, user name and password are those of the address.
pub proof fn parts_are_those_of_the_address(a: Address)
    ensures
        a.parts().0 == a.scheme@,
        a.parts().1 == a.username@,
        a.parts().2 == json::text_in(a.password),
{
}

/// What is said of a client that cannot be set up.
pub proof fn refusals_hold_the_path(p: String)
    ensures
        JudgeError::EmptyBase.text() == "API base URL cannot be empty"@,
        JudgeError::InvalidBase(p).text() == "invalid API base URL"@,
        JudgeError::NotHttp.text() == "API base URL must use HTTP or HTTPS"@,
        JudgeError::Credentials.text() == "API credentials must not be embedded in the URL"@,
        JudgeError::NoHome.text() == "HOME is unavailable"@,
        JudgeError::NoKey(p).text()
            == "no key found: neither OPENAI_API_KEY in the environment nor "@ + p@,
        JudgeError::EmptyKeyFile(p).text() == p@ + " is empty"@,
{
}

/// Nothing but white space.
pub open spec fn is_blank(t: Seq<char>) -> bool {
    forall|i: int| 0 <= i < t.len() ==> text::is_white_space(#[trigger] t[i])
}

/// `key` is what stands in `t` with white space around it.
pub open spec fn is_inside(key: Seq<char>, t: Seq<char>) -> bool {
    &&& key.len() > 0
    &&& !text::is_white_space(key[0])
    &&& !text::is_white_space(key.last())
    &&& exists|a: Seq<char>, b: Seq<char>|
        is_blank(a) && is_blank(b) && t == #[trigger] (a + key + b)
}

proof fn lemma_inside_is_usable(key: Seq<char>, t: Seq<char>)
    requires
        is_inside(key, t),
    ensures
        usable(Some(t)) == Some(key),
{
    let (a, b) = choose|a: Seq<char>, b: Seq<char>|
        is_blank(a) && is_blank(b) && t == #[trigger] (a + key + b);
    text::trimming_leaves_what_the_white_space_surrounds(a, key, b);
}

proof fn lemma_blank_is_not_usable(t: Seq<char>)
    requires
        is_blank(t),
    ensures
        usable(Some(t)) == None::<Seq<char>>,
{
    let none = Seq::<char>::empty();
    text::trimming_leaves_what_the_white_space_surrounds(t, none, none);
    assert(t + none + none =~= t);
}

/// A key in the environment is used, without the white space around it, whatever
/// the file holds and whoever the provider is.
pub proof fn the_environment_comes_first(
    provider: Provider,
    environment: Seq<char>,
    key: Seq<char>,
    file: KeyFile,
    r: Result<Option<String>, JudgeError>,
)
    requires
        is_inside(key, environment),
    ensures
        is_key_choice(provider, Some(environment), file, r) <==> r is Ok && json::text_in(r->Ok_0)
            == Some(key),
        !is_file_needed(provider, Some(environment)),
{
    lemma_inside_is_usable(key, environment);
}

/// Without a key in the environment, be it missing or blank, Ollama does without,
/// and OpenAI takes what stands in the file.
pub proof fn the_file_comes_second(
    environment: Option<Seq<char>>,
    path: String,
    content: String,
    key: Seq<char>,
    r: Result<Option<String>, JudgeError>,
)
    requires
        environment is None || is_blank(environment->Some_0),
    ensures
        is_file_needed(Provider::Openai, environment),
        !is_file_needed(Provider::Ollama, environment),
        is_key_choice(Provider::Ollama, environment, KeyFile::Read(path, content), r) <==> r
            == Ok::<Option<String>, JudgeError>(None),
        is_inside(key, content@) ==> (is_key_choice(
            Provider::Openai,
            environment,
            KeyFile::Read(path, content),
            r,
        ) <==> r is Ok && json::text_in(r->Ok_0) == Some(key)),
        is_blank(content@) ==> (is_key_choice(
            Provider::Openai,
            environment,
            KeyFile::Read(path, content),
            r,
        ) <==> r is Err && r->Err_0 is EmptyKeyFile && r->Err_0->EmptyKeyFile_0@ == path@),
        is_key_choice(Provider::Openai, environment, KeyFile::Unreadable(path), r) <==> r is Err
            && r->Err_0 is NoKey && r->Err_0->NoKey_0@ == path@,
        is_key_choice(Provider::Openai, environment, KeyFile::NoHome, r) <==> r is Err && r->Err_0
            is NoHome,
{
    if environment is Some {
        lemma_blank_is_not_usable(environment->Some_0);
    }
    if is_inside(key, content@) {
        lemma_inside_is_usable(key, content@);
    }
    if is_blank(content@) {
        lemma_blank_is_not_usable(content@);
    }
}

/// The brief stands in both prompts as it is, between the same words every time.
pub proof fn prompts_hold_the_brief(a: Seq<char>, b: Seq<char>)
    ensures
        triage_prompt(a) == prompts::TRIAGE_BEFORE@ + a + prompts::TRIAGE_AFTER@,
        describe_prompt(a) == prompts::DESCRIBE_BEFORE@ + a + prompts::DESCRIBE_AFTER@,
        triage_prompt(a) == triage_prompt(b) <==> a == b,
        describe_prompt(a) == describe_prompt(b) <==> a == b,
{
    lemma_middle(prompts::TRIAGE_BEFORE@, a, b, prompts::TRIAGE_AFTER@);
    lemma_middle(prompts::DESCRIBE_BEFORE@, a, b, prompts::DESCRIBE_AFTER@);
}

proof fn lemma_middle(x: Seq<char>, a: Seq<char>, b: Seq<char>, y: Seq<char>)
    ensures
        x + a + y == x + b + y <==> a == b,
{
    if x + a + y == x + b + y {
        assert((x + a + y).len() == x.len() + a.len() + y.len());
        assert((x + b + y).len() == x.len() + b.len() + y.len());
        assert((x + a + y).subrange(x.len() as int, (x.len() + a.len()) as int) =~= a);
        assert((x + b + y).subrange(x.len() as int, (x.len() + b.len()) as int) =~= b);
    }
}

/// What the scoring prompt asks for: a score from 0 to 10 for every name, judged by
/// the brief, as JSON.
pub proof fn the_scoring_prompt(brief: Seq<char>)
    ensures
        triage_prompt(brief)
            == "You rate candidate brand names for a company. Here is the company brief:\n\n"@
            + brief
            + "\n\nFor each name, give a fit score from 0 to 10 judging how well it could serve as \
            this company's name: sound, memorability, suitability for a technical B2B \
            infrastructure audience, and absence of unfortunate connotations in any major \
            language. Be harsh — most names deserve below 5. Reply with JSON only, in the form \
            {\"results\": [{\"name\": \"...\", \"fit\": 0.0}]}, one entry per name given, no \
            commentary."@,
{
}

/// The fingerprint is the hash of the model's name and of the description prompt
/// behind it, in sixteen digits.
pub proof fn fingerprints_cover_model_and_prompt(model: Seq<char>, brief: Seq<char>)
    ensures
        fingerprint(model, brief) == text::hex_digits(
            keyed::hash_of(
                encode_utf8(model) + encode_utf8(
                    prompts::DESCRIBE_BEFORE@ + brief + prompts::DESCRIBE_AFTER@,
                ),
            ) as int,
            16,
        ),
        fingerprint(model, brief).len() == 16,
{
    text::hexadecimal_digits_stand_for_the_number(
        keyed::hash_of(encode_utf8(model) + encode_utf8(describe_prompt(brief))) as int,
        16,
        Seq::new(16, |i: int| 0int),
    );
}

proof fn lemma_hex_digits_differ(m: int, n: int, count: nat)
    requires
        0 <= m,
        0 <= n,
        text::hex_digits(m, count) == text::hex_digits(n, count),
    ensures
        m % vstd::arithmetic::power2::pow2(4 * count) as int
            == n % vstd::arithmetic::power2::pow2(4 * count) as int,
    decreases count,
{
    vstd::arithmetic::power2::lemma_pow2_pos(4 * count);
    if count == 0 {
        vstd::arithmetic::power2::lemma2_to64();
        assert(m % 1 == 0 && n % 1 == 0);
    } else {
        let less = (count - 1) as nat;
        let a = text::hex_digits(m, count);
        let b = text::hex_digits(n, count);
        assert(a.drop_last() =~= text::hex_digits(m / 16, less));
        assert(b.drop_last() =~= text::hex_digits(n / 16, less));
        assert(a.last() == text::hex_digit(m % 16));
        assert(b.last() == text::hex_digit(n % 16));
        lemma_hex_digits_differ(m / 16, n / 16, less);
        lemma_hex_digit_differs(m % 16, n % 16);
        let p = vstd::arithmetic::power2::pow2(4 * less) as int;
        vstd::arithmetic::power2::lemma_pow2_adds(4 * less, 4);
        vstd::arithmetic::power2::lemma2_to64();
        vstd::arithmetic::power2::lemma_pow2_pos(4 * less);
        assert(4 * less + 4 == 4 * count);
        assert(vstd::arithmetic::power2::pow2(4 * count) == 16 * p);
        vstd::arithmetic::div_mod::lemma_mod_breakdown(m, 16, p);
        vstd::arithmetic::div_mod::lemma_mod_breakdown(n, 16, p);
    }
}

proof fn lemma_hex_digit_differs(a: int, b: int)
    requires
        0 <= a < 16,
        0 <= b < 16,
        text::hex_digit(a) == text::hex_digit(b),
    ensures
        a == b,
{
    assert((48 + a) as char as int == 48 + a && (87 + a) as char as int == 87 + a);
    assert((48 + b) as char as int == 48 + b && (87 + b) as char as int == 87 + b);
}

/// Fingerprints are the same exactly when the hashes are.
proof fn lemma_fingerprints(x: Seq<char>, y: Seq<char>, a: Seq<char>, b: Seq<char>)
    ensures
        fingerprint(x, a) == fingerprint(y, b) <==> keyed::hash_of(
            encode_utf8(x) + encode_utf8(describe_prompt(a)),
        ) == keyed::hash_of(encode_utf8(y) + encode_utf8(describe_prompt(b))),
{
    let m = keyed::hash_of(encode_utf8(x) + encode_utf8(describe_prompt(a))) as int;
    let n = keyed::hash_of(encode_utf8(y) + encode_utf8(describe_prompt(b))) as int;
    if fingerprint(x, a) == fingerprint(y, b) {
        lemma_hex_digits_differ(m, n, 16);
        vstd::arithmetic::power2::lemma2_to64();
        vstd::arithmetic::power2::lemma2_to64_rest();
        assert(vstd::arithmetic::power2::pow2(64) == 0x1_0000_0000_0000_0000);
        vstd::arithmetic::div_mod::lemma_small_mod(m as nat, 0x1_0000_0000_0000_0000);
        vstd::arithmetic::div_mod::lemma_small_mod(n as nat, 0x1_0000_0000_0000_0000);
    }
}

/// With the same brief, two models have the same fingerprint only if the hashes of
/// their names are the same; names that differ in their last byte alone never have.
pub proof fn other_models_have_other_fingerprints(x: Seq<char>, y: Seq<char>, brief: Seq<char>)
    ensures
        fingerprint(x, brief) == fingerprint(y, brief) <==> keyed::hash_of(encode_utf8(x))
            == keyed::hash_of(encode_utf8(y)),
        encode_utf8(x).len() > 0 && encode_utf8(y).len() > 0 && encode_utf8(x).drop_last()
            == encode_utf8(y).drop_last() && x != y ==> fingerprint(x, brief) != fingerprint(
            y,
            brief,
        ),
{
    let p = encode_utf8(x);
    let q = encode_utf8(y);
    let end = encode_utf8(describe_prompt(brief));
    lemma_fingerprints(x, y, brief, brief);
    keyed::a_common_ending_changes_nothing(p, q, end);
    if p.len() > 0 && q.len() > 0 && p.drop_last() == q.drop_last() && x != y {
        text::bytes_identify_text(x, y);
        assert(p =~= p.drop_last().push(p.last()));
        assert(q =~= q.drop_last().push(q.last()));
        keyed::the_last_byte_counts(p.drop_last(), p.last(), q.last());
    }
}

/// A request holds the system prompt and the names, each in its role, the model, and
/// the demand for a JSON object; and a temperature exactly when one was chosen.
pub proof fn requests_hold_what_is_asked(
    model: Seq<char>,
    system: Seq<char>,
    user: Seq<char>,
    t: Seq<char>,
)
    ensures
        request_text(model, system, user, None) == "{\"messages\":["@ + message_text(
            system,
            "system"@,
        ) + ","@ + message_text(user, "user"@) + "],\"model\":"@ + model
            + ",\"response_format\":{\"type\":\"json_object\"}}"@,
        request_text(model, system, user, Some(t)) == request_text(
            model,
            system,
            user,
            None,
        ).drop_last() + ",\"temperature\":"@ + t + "}"@,
{
    reveal_strlit("{\"messages\":[");
    reveal_strlit(",");
    reveal_strlit("],\"model\":");
    reveal_strlit(",\"response_format\":{\"type\":\"json_object\"}}");
    reveal_strlit(",\"response_format\":{\"type\":\"json_object\"}");
    reveal_strlit("{\"messages\":[{\"content\":");
    reveal_strlit(",\"role\":\"system\"},{\"content\":");
    reveal_strlit(",\"role\":\"user\"}],\"model\":");
    reveal_strlit("{\"content\":");
    reveal_strlit(",\"role\":\"");
    reveal_strlit("\"}");
    reveal_strlit("system");
    reveal_strlit("user");
    reveal_strlit("}");
    let x = request_text(model, system, user, None);
    assert(x =~= "{\"messages\":["@ + message_text(system, "system"@) + ","@ + message_text(
        user,
        "user"@,
    ) + "],\"model\":"@ + model + ",\"response_format\":{\"type\":\"json_object\"}}"@);
    let y = request_text(model, system, user, Some(t));
    assert(y =~= x.drop_last() + ",\"temperature\":"@ + t + "}"@);
}

/// A message of a request: its content, given as a JSON string, and its role.
pub open spec fn message_text(content: Seq<char>, role: Seq<char>) -> Seq<char> {
    "{\"content\":"@ + content + ",\"role\":\""@ + role + "\"}"@
}

/// A failure is reported with its status and body, and marked as permanent exactly
/// when the status is one of four or the body speaks of quota or billing.
pub proof fn failures_tell_status_and_body(status: u16, shown: Seq<char>, body: Seq<char>)
    ensures
        ({
            let fatal = seq![400u16, 401u16, 403u16, 404u16].contains(status) || (exists|
                a: Seq<char>,
                b: Seq<char>,
            | body == #[trigger] (a + "insufficient_quota"@ + b)) || (exists|
                a: Seq<char>,
                b: Seq<char>,
            | body == #[trigger] (a + "billing"@ + b));
            let report = "the API returned "@ + shown + ": "@ + body;
            failure_text(status, shown, body) == if fatal {
                "[permanent] "@ + report
            } else {
                report
            }
        }),
{
    let list = seq![400u16, 401u16, 403u16, 404u16];
    assert(list[0] == 400 && list[1] == 401 && list[2] == 403 && list[3] == 404);
    assert(list.contains(status) <==> status == 400 || status == 401 || status == 403 || status
        == 404) by {
        if status == 400 {
            assert(list[0] == status);
        }
        if status == 401 {
            assert(list[1] == status);
        }
        if status == 403 {
            assert(list[2] == status);
        }
        if status == 404 {
            assert(list[3] == status);
        }
    }
    text::parts_stand_between(body, "insufficient_quota"@);
    text::parts_stand_between(body, "billing"@);
    let report = "the API returned "@ + shown + ": "@ + body;
    assert("[permanent] "@ + "the API returned "@ + shown + ": "@ + body =~= "[permanent] "@
        + report);
    assert(Seq::<char>::empty() + "the API returned "@ + shown + ": "@ + body =~= report);
}

/// A failure is permanent exactly when the mark stands somewhere in its report; then
/// it is reported at once. Any other one is waited out for ten seconds after the
/// first attempt and for twenty after the second, and ends the request after the
/// third.
pub proof fn permanent_failures_are_not_retried(attempt: u32, message: Seq<char>)
    requires
        attempt <= 2,
    ensures
        ({
            let marked = exists|a: Seq<char>, b: Seq<char>|
                message == #[trigger] (a + "[permanent]"@ + b);
            &&& marked <==> step_after(attempt, message) == AfterFailure::Stop
            &&& !marked ==> step_after(attempt, message) == if attempt < 2 {
                AfterFailure::RetryAfter((10 * (attempt + 1)) as u64)
            } else {
                AfterFailure::GiveUp
            }
        }),
{
    text::parts_stand_between(message, "[permanent]"@);
}

} // verus!
