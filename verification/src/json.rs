//! One JSON object per line: what is written, and what is read back.

use crate::text;
use vstd::prelude::*;

verus! {

/// A character inside a JSON string.
pub open spec fn escaped(c: char) -> Seq<char> {
    if c == '"' || c == '\\' {
        seq!['\\', c]
    } else if c == '\u{8}' {
        seq!['\\', 'b']
    } else if c == '\u{9}' {
        seq!['\\', 't']
    } else if c == '\u{a}' {
        seq!['\\', 'n']
    } else if c == '\u{c}' {
        seq!['\\', 'f']
    } else if c == '\u{d}' {
        seq!['\\', 'r']
    } else if ' ' > c {
        seq!['\\', 'u', '0', '0', text::hex_digit((c as u32 / 16) as int), text::hex_digit((c as u32 % 16) as int)]
    } else {
        seq![c]
    }
}

/// The characters of a text inside a JSON string.
pub open spec fn escapes(t: Seq<char>) -> Seq<char>
    decreases t.len(),
{
    if t.len() == 0 {
        Seq::empty()
    } else {
        escapes(t.drop_last()) + escaped(t.last())
    }
}

/// A text as a JSON string.
pub open spec fn json_string(t: Seq<char>) -> Seq<char> {
    seq!['"'] + escapes(t) + seq!['"']
}

/// Writes a text as a JSON string. Claimed of the text form of
/// `serde_json::Value`: a string stands between quotation marks; quotation marks,
/// backslashes and the control characters below the space are escaped, the latter
/// by a letter where JSON has one; everything else stands for itself.
#[verifier::external_body]
pub(crate) fn to_json_string(t: &str) -> (r: String)
    ensures
        r@ == json_string(t@),
{
    serde_json::Value::String(t.to_owned()).to_string()
}

/// A JSON object with two fields that hold strings.
pub open spec fn json_object(
    first: Seq<char>,
    a: Seq<char>,
    second: Seq<char>,
    b: Seq<char>,
) -> Seq<char> {
    seq!['{'] + json_string(first) + seq![':'] + json_string(a) + seq![','] + json_string(second)
        + seq![':'] + json_string(b) + seq!['}']
}

/// What the parser says of a text that is no JSON value; `None` of one that is.
pub uninterp spec fn json_complaint(line: Seq<char>) -> Option<Seq<char>>;

/// The text is a JSON value.
pub open spec fn is_json(line: Seq<char>) -> bool {
    json_complaint(line) is None
}

/// The string in a field of a JSON object; `None` where there is none.
pub uninterp spec fn json_text(line: Seq<char>, field: Seq<char>) -> Option<Seq<char>>;

/// The bits of the double-precision number in a field of a JSON object; `None`
/// where there is none.
pub uninterp spec fn json_number(line: Seq<char>, field: Seq<char>) -> Option<u64>;

/// Writes an object with two fields that hold strings. Claimed of the text form
/// of `serde_json::Value`: the fields stand in the order of their names, without
/// any space, and `serde_json::from_str` gives each string back under its name
/// and nothing under any other.
#[verifier::external_body]
pub(crate) fn to_json_object(first: &str, a: &str, second: &str, b: &str) -> (r: String)
    requires
        first@.len() > 0,
        second@.len() > 0,
        first@[0] < second@[0],
    ensures
        r@ == json_object(first@, a@, second@, b@),
        is_json(r@),
        json_text(r@, first@) == Some(a@),
        json_text(r@, second@) == Some(b@),
        forall|f: Seq<char>|
            f != first@ && f != second@ ==> #[trigger] json_text(r@, f) is None && json_number(
                r@,
                f,
            ) is None,
{
    let mut map = serde_json::Map::new();
    map.insert(first.to_owned(), serde_json::Value::String(a.to_owned()));
    map.insert(second.to_owned(), serde_json::Value::String(b.to_owned()));
    serde_json::Value::Object(map).to_string()
}

/// The text of an optional string.
pub open spec fn text_in(value: Option<String>) -> Option<Seq<char>> {
    match value {
        Some(v) => Some(v@),
        None => None,
    }
}

/// Reads the string in a field. Claimed of `serde_json::from_str` into a
/// `serde_json::Value`, of the text of its error, of indexing the value by the
/// field's name, and of `as_str`: whether the line is JSON, and what is said of it
/// if it is not, depends on the line alone, and what the field holds on the line
/// and the field. Which lines are JSON is left to the parser.
#[verifier::external_body]
pub(crate) fn read_text(line: &str, field: &str) -> (r: Result<Option<String>, String>)
    ensures
        match r {
            Ok(v) => json_complaint(line@) is None && text_in(v) == json_text(line@, field@),
            Err(e) => json_complaint(line@) == Some(e@),
        },
{
    match serde_json::from_str::<serde_json::Value>(line) {
        Ok(v) => Ok(v[field].as_str().map(str::to_owned)),
        Err(e) => Err(e.to_string()),
    }
}

/// Reads the number in a field, as the bits of a double-precision number.
/// Claimed of `serde_json::from_str` into a `serde_json::Value`, of the text of its
/// error, of indexing the value by the field's name, and of `as_f64`: whether the
/// line is JSON, and what is said of it if it is not, depends on the line alone,
/// and what the field holds on the line and the field.
#[verifier::external_body]
pub(crate) fn read_number(line: &str, field: &str) -> (r: Result<Option<u64>, String>)
    ensures
        match r {
            Ok(v) => json_complaint(line@) is None && v == json_number(line@, field@),
            Err(e) => json_complaint(line@) == Some(e@),
        },
{
    match serde_json::from_str::<serde_json::Value>(line) {
        Ok(v) => Ok(v[field].as_f64().map(|x| x.to_bits())),
        Err(e) => Err(e.to_string()),
    }
}

/// A character that JSON numbers are written with.
pub open spec fn is_number_char(c: char) -> bool {
    '0' <= c <= '9' || c == '-' || c == '+' || c == '.' || c == 'e' || c == 'E'
}

/// Only characters that JSON numbers are written with.
pub open spec fn all_number_chars(digits: Seq<char>) -> bool {
    forall|i: int| 0 <= i < digits.len() ==> is_number_char(#[trigger] digits[i])
}

/// Tells whether a text has only characters that JSON numbers are written with.
pub fn number_chars_only(digits: &str) -> (r: bool)
    ensures
        r == all_number_chars(digits@),
{
    let chars = text::chars_of(digits);
    for i in 0..chars.len()
        invariant
            chars@ == digits@,
            forall|j: int| 0 <= j < i ==> is_number_char(#[trigger] digits@[j]),
    {
        let c = chars[i];
        if !(('0' <= c && c <= '9') || c == '-' || c == '+' || c == '.' || c == 'e' || c == 'E') {
            assert(!is_number_char(digits@[i as int]));
            return false;
        }
    }
    true
}

/// A JSON object with a field that holds a number, in the given digits, and two
/// that hold strings.
pub open spec fn json_score(
    field: Seq<char>,
    digits: Seq<char>,
    first: Seq<char>,
    a: Seq<char>,
    second: Seq<char>,
    b: Seq<char>,
) -> Seq<char> {
    seq!['{'] + json_string(field) + seq![':'] + digits + seq![','] + json_string(first)
        + seq![':'] + json_string(a) + seq![','] + json_string(second) + seq![':'] + json_string(b)
        + seq!['}']
}

/// Puts an object together from a number in digits and two strings.
pub(crate) fn frame_score(
    field: &str,
    digits: &str,
    first: &str,
    a: &str,
    second: &str,
    b: &str,
) -> (r: String)
    ensures
        r@ == json_score(field@, digits@, first@, a@, second@, b@),
{
    let mut r = String::new();
    r.push('{');
    r.append(to_json_string(field).as_str());
    r.push(':');
    r.append(digits);
    r.push(',');
    r.append(to_json_string(first).as_str());
    r.push(':');
    r.append(to_json_string(a).as_str());
    r.push(',');
    r.append(to_json_string(second).as_str());
    r.push(':');
    r.append(to_json_string(b).as_str());
    r.push('}');
    assert(r@ =~= json_score(field@, digits@, first@, a@, second@, b@));
    r
}

/// The bits of the double-precision number that digits are read as; `None` where
/// they are no JSON number.
pub uninterp spec fn json_double(digits: Seq<char>) -> Option<u64>;

/// Reads the number in the first field of an object with a number and two strings.
/// Claimed of `serde_json::from_str` into a `serde_json::Value`, of indexing it by
/// the field's name, and of `as_f64`: such an object is JSON exactly when its
/// digits are a JSON number; the number that is read depends on the digits alone;
/// and the two strings are given back under their names. Which number the digits
/// are read as is left to the parser, which may be off in the last place.
#[verifier::external_body]
pub(crate) fn read_score(
    line: &str,
    field: &str,
    digits: &str,
    first: &str,
    a: &str,
    second: &str,
    b: &str,
) -> (r: Option<u64>)
    requires
        line@ == json_score(field@, digits@, first@, a@, second@, b@),
        all_number_chars(digits@),
        field@ != first@,
        field@ != second@,
        first@ != second@,
    ensures
        r == json_double(digits@),
        r is Some == is_json(line@),
        r is Some ==> json_number(line@, field@) == r,
        r is Some ==> json_text(line@, first@) == Some(a@),
        r is Some ==> json_text(line@, second@) == Some(b@),
{
    let v: serde_json::Value = serde_json::from_str(line).ok()?;
    v[field].as_f64().map(|x| x.to_bits())
}

proof fn lemma_digit_is_no_line_feed(n: int)
    requires
        0 <= n < 16,
    ensures
        text::hex_digit(n) != '\n',
{
    if n < 10 {
        assert((48 + n) as char as int == 48 + n);
    } else {
        assert((87 + n) as char as int == 87 + n);
    }
}

proof fn lemma_escape_has_no_line_feed(c: char)
    ensures
        !escaped(c).contains('\n'),
{
    if ' ' > c {
        lemma_digit_is_no_line_feed((c as u32 / 16) as int);
        lemma_digit_is_no_line_feed((c as u32 % 16) as int);
    }
}

/// The inside of a JSON string has no line feed.
proof fn lemma_no_line_feed(t: Seq<char>)
    ensures
        !escapes(t).contains('\n'),
    decreases t.len(),
{
    if t.len() > 0 {
        lemma_no_line_feed(t.drop_last());
        lemma_escape_has_no_line_feed(t.last());
    }
}

/// A JSON string stands on one line.
pub proof fn a_string_is_one_line(t: Seq<char>)
    ensures
        text::is_one_line(json_string(t)),
{
    lemma_no_line_feed(t);
}

/// Digits stand on one line.
proof fn lemma_number_is_one_line(digits: Seq<char>)
    requires
        all_number_chars(digits),
    ensures
        text::is_one_line(digits),
{
    assert forall|i: int| 0 <= i < digits.len() implies digits[i] != '\n' by {
        assert(is_number_char(digits[i]));
    }
}

/// A JSON object with a number stands on one line: it has no line feed, and it
/// begins and ends with a brace.
pub proof fn a_score_is_one_line(
    field: Seq<char>,
    digits: Seq<char>,
    first: Seq<char>,
    a: Seq<char>,
    second: Seq<char>,
    b: Seq<char>,
)
    requires
        all_number_chars(digits),
    ensures
        text::is_one_line(json_score(field, digits, first, a, second, b)),
        json_score(field, digits, first, a, second, b).len() > 0,
        json_score(field, digits, first, a, second, b)[0] == '{',
        json_score(field, digits, first, a, second, b).last() == '}',
{
    lemma_no_line_feed(field);
    lemma_no_line_feed(first);
    lemma_no_line_feed(a);
    lemma_no_line_feed(second);
    lemma_no_line_feed(b);
    lemma_number_is_one_line(digits);
}

/// A JSON object stands on one line: it has no line feed, and it begins and ends
/// with a brace.
pub proof fn an_object_is_one_line(
    first: Seq<char>,
    a: Seq<char>,
    second: Seq<char>,
    b: Seq<char>,
)
    ensures
        text::is_one_line(json_object(first, a, second, b)),
        json_object(first, a, second, b).len() > 0,
        json_object(first, a, second, b)[0] == '{',
        json_object(first, a, second, b).last() == '}',
{
    lemma_no_line_feed(first);
    lemma_no_line_feed(a);
    lemma_no_line_feed(second);
    lemma_no_line_feed(b);
}

// What is written, letter by letter

/// The fifteen characters that JSON numbers are written with.
pub proof fn the_number_characters(c: char)
    ensures
        is_number_char(c) <==> "0123456789+-.eE"@.contains(c),
{
    reveal_strlit("0123456789+-.eE");
    let s = "0123456789+-.eE"@;
    assert(s[0] == '0' && s[1] == '1' && s[2] == '2' && s[3] == '3' && s[4] == '4' && s[5] == '5'
        && s[6] == '6' && s[7] == '7' && s[8] == '8' && s[9] == '9' && s[10] == '+' && s[11] == '-'
        && s[12] == '.' && s[13] == 'e' && s[14] == 'E');
    if '0' <= c <= '9' {
        let i = c as int - '0' as int;
        assert(s[i] as int == c as int);
        assert(s[i] == c);
    }
}

/// The inside of a JSON string of two texts in a row is the insides of both.
pub proof fn escapes_of_texts_in_a_row(a: Seq<char>, b: Seq<char>)
    ensures
        escapes(a + b) == escapes(a) + escapes(b),
    decreases b.len(),
{
    if b.len() == 0 {
        assert(a + b =~= a);
        assert(escapes(a) + escapes(b) =~= escapes(a));
    } else {
        assert((a + b).drop_last() =~= a + b.drop_last());
        escapes_of_texts_in_a_row(a, b.drop_last());
        assert(escapes(a + b) =~= escapes(a) + escapes(b));
    }
}

/// A text without quotation marks, backslashes and control characters stands in a
/// JSON string as it is.
pub proof fn plain_texts_are_not_escaped(t: Seq<char>)
    requires
        forall|i: int|
            0 <= i < t.len() ==> #[trigger] t[i] >= ' ' && t[i] != '"' && t[i] != '\\',
    ensures
        json_string(t) == seq!['"'] + t + seq!['"'],
    decreases t.len(),
{
    if t.len() > 0 {
        let n = t.len() - 1;
        assert(t[n] >= ' ' && t[n] != '"' && t[n] != '\\');
        assert forall|i: int| 0 <= i < t.drop_last().len() implies #[trigger] t.drop_last()[i]
            >= ' ' && t.drop_last()[i] != '"' && t.drop_last()[i] != '\\' by {
            assert(t.drop_last()[i] == t[i]);
        }
        plain_texts_are_not_escaped(t.drop_last());
        lemma_plain_escapes(t.drop_last());
        assert(escaped(t.last()) =~= seq![t.last()]);
        assert(escapes(t) =~= t);
    } else {
        assert(escapes(t) =~= t);
    }
}

proof fn lemma_plain_escapes(t: Seq<char>)
    requires
        json_string(t) == seq!['"'] + t + seq!['"'],
    ensures
        escapes(t) == t,
{
    let a = seq!['"'] + escapes(t) + seq!['"'];
    let b = seq!['"'] + t + seq!['"'];
    assert(a.len() == b.len());
    assert(a.subrange(1, a.len() - 1) =~= escapes(t));
    assert(b.subrange(1, b.len() - 1) =~= t);
}

/// The text of an optional string is there exactly when the string is.
pub proof fn the_text_of_an_optional_string(s: String)
    ensures
        text_in(Some(s)) == Some(s@),
        text_in(None) is None,
{
}

} // verus!
