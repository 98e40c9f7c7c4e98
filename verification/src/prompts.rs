//! The wording of the two prompts.

use vstd::prelude::*;

verus! {

/// What stands before the brief in the scoring prompt.
pub const TRIAGE_BEFORE: &'static str = "You rate candidate brand names for a company. Here is the company brief:\n\n\
     ";

/// What stands behind the brief in the scoring prompt.
pub const TRIAGE_AFTER: &'static str = "\n\n\
     For each name, give a fit score from 0 to 10 judging how well it could serve as \
     this company's name: sound, memorability, suitability for a technical B2B \
     infrastructure audience, and absence of unfortunate connotations in any major \
     language. Be harsh — most names deserve below 5. Reply with JSON only, in the form \
     {\"results\": [{\"name\": \"...\", \"fit\": 0.0}]}, one entry per name given, \
     no commentary.";

/// What stands before the brief in the description prompt.
pub const DESCRIBE_BEFORE: &'static str = "You are naming a company. Here is the brief:\n\n";

/// What stands behind the brief in the description prompt.
pub const DESCRIBE_AFTER: &'static str = "\n\n\
     For each candidate name, write: a tagline (under 8 words), a description of the \
     product or positioning the name would suit (2 sentences), and a rationale tying \
     the name's sound or associations to the brief.\n\n\
     Then fill the `concerns` field. Treat this as the most important field, and be \
     actively suspicious rather than charitable. These names were coined by a Markov \
     model trained on the technical vocabulary of this domain, so their typical flaw is \
     not imitating a company but sitting one letter away from an ordinary word.\n\n\
     Weigh every collision by market distance, because trademark protection is scoped \
     to a sector. A collision with a company selling to this audience — infrastructure, \
     databases, cloud, devtools, data platforms, open-source projects — is severe: a \
     shared distinctive stem is a real problem there even when the endings differ, \
     because an engineer could take the name for a spin-off of an existing product. A \
     resemblance to a well-known brand in an unrelated market, such as clothing, food, \
     banking or travel, deserves one sentence and no more; it does not block the name \
     and must not drive the rating. State which of the two cases you are in.\n\n\
     Then apply the spoken test, in both directions. Reading direction: can someone \
     seeing the name written guess how to say it? Hearing direction, which matters more \
     and is easier to overlook: imagine the name said aloud in a meeting or a podcast, \
     with no spelling given, and write down what a listener would afterwards type into \
     a search box. If that differs from the actual name — because an ordinary word or a \
     common brand sits closer to what was heard — the name loses people every time it \
     is spoken. Treat that as a serious defect and name the word they would type.\n\n\
     Also flag awkward or offensive meanings in any major language, French included. \
     Use an empty string only when you genuinely find nothing after having looked.\n\n\
     Also give `severity`, an integer from 1 to 5 rating how damaging the concerns \
     are: 1 means a remark worth noting that would not stop anyone adopting the name, \
     3 means a real obstacle that needs deliberate handling, 5 means the name is \
     unusable — a direct collision with a company selling to this audience, a name that \
     reliably mishears as a common word, or a meaning that embarrasses. A resemblance \
     to a famous brand in an unrelated industry is a 1 or a 2, never a 5. Spread your \
     ratings across the scale; if every name receives the same severity the field tells \
     the reader nothing.\n\n\
     Reply with JSON only, in the form \
     {\"results\": [{\"name\": \"...\", \"tagline\": \"...\", \"description\": \"...\", \
     \"rationale\": \"...\", \"concerns\": \"...\", \"severity\": 1}]}, \
     one entry per name given.";

} // verus!
