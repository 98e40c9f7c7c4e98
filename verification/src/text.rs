//! Text primitives: lines, trimming, searching, joining and number formats.

use vstd::prelude::*;
use vstd::utf8::*;

verus! {

/// Appends one character to a string. Claimed of `String::push`: the character
/// is added at the end, and nothing else changes.
pub assume_specification[ String::push ](s: &mut String, c: char)
    ensures
        final(s)@ == old(s)@.push(c),
;

/// The characters with the Unicode property `White_Space`.
pub open spec fn is_white_space(c: char) -> bool {
    let n = c as u32;
    ||| 0x9 <= n <= 0xd
    ||| n == 0x20
    ||| n == 0x85
    ||| n == 0xa0
    ||| n == 0x1680
    ||| 0x2000 <= n <= 0x200a
    ||| n == 0x2028
    ||| n == 0x2029
    ||| n == 0x202f
    ||| n == 0x205f
    ||| n == 0x3000
}

/// Tells whether a character is white space.
pub fn white_space(c: char) -> (r: bool)
    ensures
        r == is_white_space(c),
{
    let n = c as u32;
    (0x9 <= n && n <= 0xd) || n == 0x20 || n == 0x85 || n == 0xa0 || n == 0x1680 || (0x2000 <= n
        && n <= 0x200a) || n == 0x2028 || n == 0x2029 || n == 0x202f || n == 0x205f || n == 0x3000
}

/// The characters of a text.
pub fn chars_of(s: &str) -> (v: Vec<char>)
    ensures
        v@ == s@,
{
    let mut v: Vec<char> = Vec::new();
    for c in it: s.chars()
        invariant
            v@ == s@.take(it.index()),
            it.seq() == s@,
    {
        v.push(c);
    }
    v
}

/// The text of the characters from `start` to `end`.
pub fn text_of(chars: &[char], start: usize, end: usize) -> (s: String)
    requires
        start <= end <= chars@.len(),
    ensures
        s@ == chars@.subrange(start as int, end as int),
{
    let mut s = String::new();
    for i in start..end
        invariant
            end <= chars@.len(),
            s@ =~= chars@.subrange(start as int, i as int),
    {
        s.push(chars[i]);
    }
    s
}

/// Two texts are the same exactly when their bytes are.
pub proof fn bytes_identify_text(a: Seq<char>, b: Seq<char>)
    ensures
        encode_utf8(a) == encode_utf8(b) <==> a == b,
{
    encode_utf8_decode_utf8(a);
    encode_utf8_decode_utf8(b);
}

/// Tells whether two byte strings are the same.
pub fn same_bytes(a: &[u8], b: &[u8]) -> (r: bool)
    ensures
        r == (a@ == b@),
{
    if a.len() != b.len() {
        return false;
    }
    for i in 0..a.len()
        invariant
            a@.len() == b@.len(),
            forall|j: int| 0 <= j < i ==> a@[j] == b@[j],
    {
        if a[i] != b[i] {
            return false;
        }
    }
    assert(a@ =~= b@);
    true
}

/// Tells whether two texts are the same.
pub fn same_text(a: &str, b: &str) -> (r: bool)
    ensures
        r == (a@ == b@),
{
    proof {
        bytes_identify_text(a@, b@);
    }
    same_bytes(a.as_bytes(), b.as_bytes())
}

/// `part` stands somewhere in `t`.
pub open spec fn has_part(t: Seq<char>, part: Seq<char>) -> bool {
    exists|i: int| #[trigger] part_at(t, part, i)
}

/// `part` stands in `t` at position `i`.
pub open spec fn part_at(t: Seq<char>, part: Seq<char>, i: int) -> bool {
    0 <= i && i + part.len() <= t.len() && t.subrange(i, i + part.len()) == part
}

/// Tells whether `part` stands somewhere in `t`.
pub fn contains_text(t: &str, part: &str) -> (r: bool)
    ensures
        r == has_part(t@, part@),
{
    let chars = chars_of(t);
    let wanted = chars_of(part);
    if wanted.len() > chars.len() {
        return false;
    }
    let last: usize = chars.len() - wanted.len();
    let mut i: usize = 0;
    loop
        invariant
            chars@ == t@,
            wanted@ == part@,
            last == chars@.len() - wanted@.len(),
            i <= last,
            forall|j: int| 0 <= j < i ==> !#[trigger] part_at(t@, part@, j),
        decreases last - i,
    {
        let mut j: usize = 0;
        while j < wanted.len() && chars[i + j] == wanted[j]
            invariant
                i + wanted.len() <= chars.len(),
                j <= wanted@.len(),
                forall|k: int| 0 <= k < j ==> chars@[i + k] == #[trigger] wanted@[k],
            decreases wanted@.len() - j,
        {
            j = j + 1;
        }
        if j == wanted.len() {
            assert(t@.subrange(i as int, i + part@.len()) =~= part@);
            assert(part_at(t@, part@, i as int));
            return true;
        }
        assert(!part_at(t@, part@, i as int)) by {
            if part_at(t@, part@, i as int) {
                assert(t@.subrange(i as int, i + part@.len())[j as int] == part@[j as int]);
            }
        }
        if i == last {
            return false;
        }
        i = i + 1;
    }
}

/// The text has no line feed.
pub open spec fn is_one_line(t: Seq<char>) -> bool {
    !t.contains('\n')
}

/// Texts without line feeds, one behind the other, have none.
pub proof fn one_line_and_one_line(a: Seq<char>, b: Seq<char>)
    requires
        is_one_line(a),
        is_one_line(b),
    ensures
        is_one_line(a + b),
{
    assert forall|i: int| 0 <= i < (a + b).len() implies (a + b)[i] != '\n' by {
        if i < a.len() {
            assert(a.contains(a[i]));
        } else {
            assert(b.contains(b[i - a.len()]));
        }
    }
}

/// The digits of a number stand on one line.
pub proof fn digits_are_one_line(n: nat)
    ensures
        is_one_line(decimal_digits(n)),
    decreases n,
{
    let digit = (48 + n % 10) as char;
    assert(digit as int == 48 + n % 10);
    if n >= 10 {
        digits_are_one_line(n / 10);
        assert(is_one_line(seq![digit]));
        one_line_and_one_line(decimal_digits(n / 10), seq![digit]);
        assert(decimal_digits(n) =~= decimal_digits(n / 10) + seq![digit]);
    }
}

/// Position of the first line feed at or after `i`, or the end.
pub open spec fn line_end(t: Seq<char>, i: int) -> int
    decreases t.len() - i,
{
    if i < 0 || i >= t.len() {
        t.len() as int
    } else if t[i] == '\n' {
        i
    } else {
        line_end(t, i + 1)
    }
}

/// A line without the carriage return in front of its line feed.
pub open spec fn without_return(line: Seq<char>) -> Seq<char> {
    if line.len() > 0 && line.last() == '\r' {
        line.drop_last()
    } else {
        line
    }
}

/// The lines of a text. A line ends with a line feed, or with a carriage return
/// and a line feed; the ending of the last line is optional.
pub open spec fn lines_from(t: Seq<char>, i: int) -> Seq<Seq<char>>
    decreases t.len() - i,
{
    if i < 0 || i >= t.len() {
        Seq::empty()
    } else {
        proof {
            lemma_line_end(t, i);
        }
        let e = line_end(t, i);
        if e == t.len() {
            seq![t.subrange(i, e)]
        } else {
            seq![without_return(t.subrange(i, e))] + lines_from(t, e + 1)
        }
    }
}

/// The lines of a whole text.
pub open spec fn lines_of(t: Seq<char>) -> Seq<Seq<char>> {
    lines_from(t, 0)
}

/// A line ends at the first line feed behind its start.
pub proof fn lemma_line_end(t: Seq<char>, i: int)
    requires
        0 <= i <= t.len(),
    ensures
        i <= line_end(t, i) <= t.len(),
        forall|j: int| i <= j < line_end(t, i) ==> t[j] != '\n',
        line_end(t, i) < t.len() ==> t[line_end(t, i)] == '\n',
    decreases t.len() - i,
{
    if i < t.len() && t[i] != '\n' {
        lemma_line_end(t, i + 1);
    }
}

/// A line end that comes before the end of a text stays where it is when the
/// text goes on.
proof fn lemma_line_end_stays(t: Seq<char>, more: Seq<char>, i: int)
    requires
        0 <= i < t.len(),
        line_end(t, i) < t.len(),
    ensures
        line_end(t + more, i) == line_end(t, i),
    decreases t.len() - i,
{
    if t[i] != '\n' {
        assert(line_end(t, i) == line_end(t, i + 1));
        lemma_line_end_stays(t, more, i + 1);
    }
}

/// The first line feed is where the line ends.
proof fn lemma_line_end_at(t: Seq<char>, i: int, e: int)
    requires
        0 <= i <= e < t.len(),
        t[e] == '\n',
        forall|j: int| i <= j < e ==> t[j] != '\n',
    ensures
        line_end(t, i) == e,
    decreases e - i,
{
    if i < e {
        lemma_line_end_at(t, i + 1, e);
    }
}

proof fn lemma_lines_appended(t: Seq<char>, line: Seq<char>, i: int)
    requires
        0 <= i <= t.len(),
        t.len() == 0 || t.last() == '\n',
        is_one_line(line),
        line.len() == 0 || line.last() != '\r',
    ensures
        lines_from(t + line.push('\n'), i) == lines_from(t, i).push(line),
    decreases t.len() - i,
{
    let more = line.push('\n');
    let all = t + more;
    if i == t.len() {
        let e = t.len() + line.len();
        assert forall|j: int| i <= j < e implies all[j] != '\n' by {
            assert(all[j] == line[j - i]);
        }
        lemma_line_end_at(all, i, e as int);
        assert(all.subrange(i, e as int) =~= line);
        assert(lines_from(all, all.len() as int) =~= Seq::empty());
        assert(lines_from(t, i) =~= Seq::empty());
        assert(lines_from(all, i) =~= seq![line]);
        assert(Seq::<Seq<char>>::empty().push(line) =~= seq![line]);
    } else {
        lemma_line_end(t, i);
        let e = line_end(t, i);
        assert(e < t.len()) by {
            if e == t.len() {
                assert(t[t.len() - 1] != '\n');
            }
        }
        lemma_line_end_stays(t, more, i);
        lemma_lines_appended(t, line, e + 1);
        assert(all.subrange(i, e) =~= t.subrange(i, e));
        assert(lines_from(all, i) =~= lines_from(t, i).push(line));
    }
}

/// Writing one more line behind a text whose last line is ended adds that line
/// and changes no other.
pub proof fn an_appended_line_is_read_back(t: Seq<char>, line: Seq<char>)
    requires
        t.len() == 0 || t.last() == '\n',
        is_one_line(line),
        line.len() == 0 || line.last() != '\r',
    ensures
        lines_of(t + line.push('\n')) == lines_of(t).push(line),
{
    lemma_lines_appended(t, line, 0);
}

/// The texts of a list of strings.
pub open spec fn texts(v: Seq<String>) -> Seq<Seq<char>> {
    v.map_values(|s: String| s@)
}

/// Splits a text into its lines.
pub fn lines(t: &str) -> (r: Vec<String>)
    ensures
        texts(r@) == lines_of(t@),
{
    let chars = chars_of(t);
    let mut r: Vec<String> = Vec::new();
    let mut start: usize = 0;
    while start < chars.len()
        invariant
            chars@ == t@,
            start <= chars@.len(),
            lines_of(t@) == texts(r@) + lines_from(t@, start as int),
        decreases chars@.len() - start,
    {
        proof {
            lemma_line_end(t@, start as int);
        }
        let mut end: usize = start;
        while end < chars.len() && chars[end] != '\n'
            invariant
                chars@ == t@,
                start <= end <= chars@.len(),
                line_end(t@, end as int) == line_end(t@, start as int),
                forall|j: int| start <= j < end ==> chars@[j] != '\n',
            decreases chars@.len() - end,
        {
            end = end + 1;
        }
        assert(end == line_end(t@, start as int));
        let ghost before = texts(r@);
        if end == chars.len() {
            let line = text_of(chars.as_slice(), start, end);
            r.push(line);
            start = end;
            assert(texts(r@) =~= before.push(line@));
        } else {
            let cut: usize = if end > start && chars[end - 1] == '\r' {
                end - 1
            } else {
                end
            };
            let line = text_of(chars.as_slice(), start, cut);
            assert(line@ =~= without_return(t@.subrange(start as int, end as int)));
            r.push(line);
            start = end + 1;
            assert(texts(r@) =~= before.push(line@));
        }
    }
    assert(lines_from(t@, start as int) =~= Seq::empty());
    r
}

/// A text without the white space in front of it.
pub open spec fn trimmed_start(s: Seq<char>) -> Seq<char>
    decreases s.len(),
{
    if s.len() > 0 && is_white_space(s[0]) {
        trimmed_start(s.drop_first())
    } else {
        s
    }
}

/// A text without the white space behind it.
pub open spec fn trimmed_end(s: Seq<char>) -> Seq<char>
    decreases s.len(),
{
    if s.len() > 0 && is_white_space(s.last()) {
        trimmed_end(s.drop_last())
    } else {
        s
    }
}

/// A text without the white space around it.
pub open spec fn trimmed(s: Seq<char>) -> Seq<char> {
    trimmed_end(trimmed_start(s))
}

/// Removes the white space around a text.
pub fn trim(t: &str) -> (r: String)
    ensures
        r@ == trimmed(t@),
{
    let chars = chars_of(t);
    let n = chars.len();
    let mut start: usize = 0;
    assert(chars@.subrange(0, n as int) =~= chars@);
    while start < n && white_space(chars[start])
        invariant
            n == chars@.len(),
            start <= n,
            trimmed_start(chars@) == trimmed_start(chars@.subrange(start as int, n as int)),
        decreases n - start,
    {
        assert(chars@.subrange(start as int, n as int).drop_first() =~= chars@.subrange(
            start + 1,
            n as int,
        ));
        start = start + 1;
    }
    let ghost s = chars@.subrange(start as int, n as int);
    assert(trimmed_start(chars@) == s);
    let mut end: usize = n;
    while start < end && white_space(chars[end - 1])
        invariant
            n == chars@.len(),
            start <= end <= n,
            s == chars@.subrange(start as int, n as int),
            trimmed_end(s) == trimmed_end(chars@.subrange(start as int, end as int)),
        decreases end,
    {
        assert(chars@.subrange(start as int, end as int).drop_last() =~= chars@.subrange(
            start as int,
            end - 1,
        ));
        end = end - 1;
    }
    text_of(chars.as_slice(), start, end)
}

/// A text without the slashes at its end.
pub open spec fn without_slashes(s: Seq<char>) -> Seq<char>
    decreases s.len(),
{
    if s.len() > 0 && s.last() == '/' {
        without_slashes(s.drop_last())
    } else {
        s
    }
}

/// Removes the slashes at the end of a text.
pub fn trim_slashes(t: &str) -> (r: String)
    ensures
        r@ == without_slashes(t@),
{
    let chars = chars_of(t);
    let mut end: usize = chars.len();
    assert(chars@.subrange(0, end as int) =~= chars@);
    while end > 0 && chars[end - 1] == '/'
        invariant
            end <= chars@.len(),
            without_slashes(chars@) == without_slashes(chars@.subrange(0, end as int)),
        decreases end,
    {
        assert(chars@.subrange(0, end as int).drop_last() =~= chars@.subrange(0, end - 1));
        end = end - 1;
    }
    text_of(chars.as_slice(), 0, end)
}

/// Texts one after the other, with a line feed between them.
pub open spec fn joined(parts: Seq<Seq<char>>) -> Seq<char>
    decreases parts.len(),
{
    if parts.len() == 0 {
        Seq::empty()
    } else if parts.len() == 1 {
        parts[0]
    } else {
        joined(parts.drop_last()).push('\n') + parts.last()
    }
}

/// Joins names with line feeds.
pub fn join_lines(names: &[String]) -> (r: String)
    ensures
        r@ == joined(texts(names@)),
{
    let mut r = String::new();
    let ghost all = texts(names@);
    for i in 0..names.len()
        invariant
            all == texts(names@),
            r@ == joined(all.take(i as int)),
    {
        assert(all.take(i + 1).drop_last() =~= all.take(i as int));
        if i > 0 {
            r.push('\n');
        }
        r.append(names[i].as_str());
        assert(r@ =~= joined(all.take(i + 1)));
    }
    assert(all.take(names@.len() as int) =~= all);
    r
}

/// The digit of a number below sixteen.
pub open spec fn hex_digit(n: int) -> char {
    if n < 10 {
        (48 + n) as char
    } else {
        (87 + n) as char
    }
}

/// The last `count` hexadecimal digits of a number.
pub open spec fn hex_digits(n: int, count: nat) -> Seq<char>
    decreases count,
{
    if count == 0 {
        Seq::empty()
    } else {
        hex_digits(n / 16, (count - 1) as nat).push(hex_digit(n % 16))
    }
}

/// Sixteen lower-case hexadecimal digits, zeros in front.
pub fn hex16(h: u64) -> (r: String)
    ensures
        r@ == hex_digits(h as int, 16),
{
    let mut digits: Vec<char> = Vec::new();
    let mut rest: u64 = h;
    for i in 0..16usize
        invariant
            digits@.len() == i,
            hex_digits(h as int, 16) == hex_digits(rest as int, (16 - i) as nat)
                + digits@.reverse(),
    {
        let d: u64 = rest % 16;
        let c: char = if d < 10 {
            (48 + d as u8) as char
        } else {
            (87 + d as u8) as char
        };
        let ghost before = digits@;
        digits.push(c);
        assert(c == hex_digit(rest as int % 16));
        assert(hex_digits(rest as int, (16 - i) as nat) + before.reverse() =~= hex_digits(
            rest as int / 16,
            (15 - i) as nat,
        ) + digits@.reverse());
        rest = rest / 16;
    }
    let mut r = String::new();
    for i in 0..16usize
        invariant
            digits@.len() == 16,
            r@ =~= digits@.reverse().take(i as int),
    {
        r.push(digits[15 - i]);
    }
    assert(hex_digits(h as int, 16) =~= digits@.reverse());
    assert(digits@.reverse().take(16) =~= digits@.reverse());
    r
}

/// The decimal digits of a number.
pub open spec fn decimal_digits(n: nat) -> Seq<char>
    decreases n,
{
    if n < 10 {
        seq![(48 + n) as char]
    } else {
        decimal_digits(n / 10).push((48 + n % 10) as char)
    }
}

/// The decimal digits of a number.
pub fn decimal(n: usize) -> (r: String)
    ensures
        r@ == decimal_digits(n as nat),
    decreases n,
{
    let mut r = if n < 10 {
        String::new()
    } else {
        decimal(n / 10)
    };
    r.push((48 + (n % 10) as u8) as char);
    assert(r@ =~= decimal_digits(n as nat));
    r
}

/// A copy of a text.
pub fn copy_text(t: &str) -> (r: String)
    ensures
        r@ == t@,
{
    t.to_owned()
}

/// The text that the `Debug` format of a string gives: the string in quotation
/// marks, with escapes where they are needed.
pub uninterp spec fn debug_text(t: Seq<char>) -> Seq<char>;

/// A text in quotation marks. Claimed of the `Debug` format of `str`: the result
/// depends on the text alone.
#[verifier::external_body]
pub(crate) fn quoted(t: &str) -> (r: String)
    ensures
        r@ == debug_text(t@),
{
    format!("{t:?}")
}

// What the primitives come to

/// The texts of a list stand in the order of the list, one for every string.
pub proof fn texts_are_those_of_the_list(v: Seq<String>)
    ensures
        texts(v).len() == v.len(),
        forall|i: int| 0 <= i < v.len() ==> #[trigger] texts(v)[i] == v[i]@,
{
}

/// The twenty-five characters that are white space.
pub proof fn the_white_space(c: char)
    ensures
        is_white_space(c) <==> seq![
            '\t', '\n', '\u{b}', '\u{c}', '\r', ' ', '\u{85}', '\u{a0}', '\u{1680}', '\u{2000}',
            '\u{2001}', '\u{2002}', '\u{2003}', '\u{2004}', '\u{2005}', '\u{2006}', '\u{2007}',
            '\u{2008}', '\u{2009}', '\u{200a}', '\u{2028}', '\u{2029}', '\u{202f}', '\u{205f}',
            '\u{3000}',
        ].contains(c),
{
    let all = seq![
        '\t', '\n', '\u{b}', '\u{c}', '\r', ' ', '\u{85}', '\u{a0}', '\u{1680}', '\u{2000}',
        '\u{2001}', '\u{2002}', '\u{2003}', '\u{2004}', '\u{2005}', '\u{2006}', '\u{2007}',
        '\u{2008}', '\u{2009}', '\u{200a}', '\u{2028}', '\u{2029}', '\u{202f}', '\u{205f}',
        '\u{3000}',
    ];
    if is_white_space(c) {
        let n = c as u32;
        let i: int = if n <= 0xd {
            n - 0x9
        } else if n == 0x20 {
            5
        } else if n == 0x85 {
            6
        } else if n == 0xa0 {
            7
        } else if n == 0x1680 {
            8
        } else if n <= 0x200a {
            9 + (n - 0x2000)
        } else if n == 0x2028 {
            20
        } else if n == 0x2029 {
            21
        } else if n == 0x202f {
            22
        } else if n == 0x205f {
            23
        } else {
            24
        };
        assert(all[i] as u32 == n);
        assert(all[i] == c);
    }
}

/// A part of a text is what stands between something before it and something
/// behind it.
pub proof fn parts_stand_between(t: Seq<char>, part: Seq<char>)
    ensures
        has_part(t, part) <==> exists|a: Seq<char>, b: Seq<char>| t == #[trigger] (a + part + b),
{
    if has_part(t, part) {
        let i = choose|i: int| #[trigger] part_at(t, part, i);
        let a = t.take(i);
        let b = t.skip(i + part.len());
        assert(t =~= a + part + b);
    }
    if exists|a: Seq<char>, b: Seq<char>| t == #[trigger] (a + part + b) {
        let (a, b) = choose|a: Seq<char>, b: Seq<char>| t == #[trigger] (a + part + b);
        assert(t.subrange(a.len() as int, (a.len() + part.len()) as int) =~= part);
        assert(part_at(t, part, a.len() as int));
    }
}

proof fn lemma_trimmed_start(a: Seq<char>, t: Seq<char>)
    requires
        forall|i: int| 0 <= i < a.len() ==> is_white_space(#[trigger] a[i]),
        t.len() == 0 || !is_white_space(t[0]),
    ensures
        trimmed_start(a + t) == t,
    decreases a.len(),
{
    if a.len() == 0 {
        assert(a + t =~= t);
    } else {
        assert(is_white_space(a[0]));
        assert((a + t).drop_first() =~= a.drop_first() + t);
        assert forall|i: int| 0 <= i < a.drop_first().len() implies is_white_space(
            #[trigger] a.drop_first()[i],
        ) by {
            assert(is_white_space(a[i + 1]));
        }
        lemma_trimmed_start(a.drop_first(), t);
    }
}

proof fn lemma_trimmed_end(t: Seq<char>, b: Seq<char>)
    requires
        forall|i: int| 0 <= i < b.len() ==> is_white_space(#[trigger] b[i]),
        t.len() == 0 || !is_white_space(t.last()),
    ensures
        trimmed_end(t + b) == t,
    decreases b.len(),
{
    if b.len() == 0 {
        assert(t + b =~= t);
    } else {
        assert(is_white_space(b[b.len() - 1]));
        assert((t + b).drop_last() =~= t + b.drop_last());
        assert forall|i: int| 0 <= i < b.drop_last().len() implies is_white_space(
            #[trigger] b.drop_last()[i],
        ) by {
            assert(is_white_space(b[i]));
        }
        lemma_trimmed_end(t, b.drop_last());
    }
}

/// Trimming takes off the white space on both sides, all of it and nothing else:
/// whatever white space stands around a text that neither begins nor ends with any,
/// the text is left; and of white space alone nothing is left.
pub proof fn trimming_leaves_what_the_white_space_surrounds(
    a: Seq<char>,
    t: Seq<char>,
    b: Seq<char>,
)
    requires
        forall|i: int| 0 <= i < a.len() ==> is_white_space(#[trigger] a[i]),
        forall|i: int| 0 <= i < b.len() ==> is_white_space(#[trigger] b[i]),
        t.len() == 0 || !is_white_space(t[0]) && !is_white_space(t.last()),
    ensures
        trimmed(a + t + b) == t,
{
    if t.len() == 0 {
        let s = a + t + b;
        assert forall|i: int| 0 <= i < s.len() implies is_white_space(#[trigger] s[i]) by {
            if i < a.len() {
                assert(s[i] == a[i]);
            } else {
                assert(s[i] == b[i - a.len()]);
            }
        }
        lemma_trimmed_start(s, t);
        assert(s + t =~= s);
    } else {
        assert(a + t + b =~= a + (t + b));
        lemma_trimmed_start(a, t + b);
        lemma_trimmed_end(t, b);
    }
}

/// Every text is what trimming leaves of it, with white space around it.
pub proof fn texts_have_a_trimmed_middle(s: Seq<char>) -> (ab: (Seq<char>, Seq<char>))
    ensures
        s == ab.0 + trimmed(s) + ab.1,
        forall|i: int| 0 <= i < ab.0.len() ==> is_white_space(#[trigger] ab.0[i]),
        forall|i: int| 0 <= i < ab.1.len() ==> is_white_space(#[trigger] ab.1[i]),
        trimmed(s).len() == 0 || !is_white_space(trimmed(s)[0]) && !is_white_space(
            trimmed(s).last(),
        ),
    decreases s.len(),
{
    if s.len() == 0 {
        assert(s =~= Seq::<char>::empty() + trimmed(s) + Seq::<char>::empty());
        (Seq::empty(), Seq::empty())
    } else if is_white_space(s[0]) {
        let rest = s.drop_first();
        assert(trimmed_start(s) == trimmed_start(rest));
        assert(trimmed(s) == trimmed(rest));
        let (a, b) = texts_have_a_trimmed_middle(rest);
        let more = seq![s[0]] + a;
        assert(s =~= seq![s[0]] + rest);
        assert(s =~= more + trimmed(s) + b);
        assert forall|i: int| 0 <= i < more.len() implies is_white_space(#[trigger] more[i]) by {
            if i > 0 {
                assert(more[i] == a[i - 1]);
            }
        }
        (more, b)
    } else if is_white_space(s.last()) {
        let rest = s.drop_last();
        assert(rest.len() > 0);
        assert(rest[0] == s[0]);
        assert(trimmed_start(rest) == rest);
        assert(trimmed_start(s) == s);
        assert(trimmed_end(s) == trimmed_end(rest));
        assert(trimmed(s) == trimmed(rest));
        let (a, b) = texts_have_a_trimmed_middle(rest);
        let more = b.push(s.last());
        assert(s =~= rest.push(s.last()));
        assert(s =~= a + trimmed(s) + more);
        assert forall|i: int| 0 <= i < more.len() implies is_white_space(#[trigger] more[i]) by {
            if i < b.len() {
                assert(more[i] == b[i]);
            }
        }
        (a, more)
    } else {
        assert(s =~= Seq::<char>::empty() + trimmed(s) + Seq::<char>::empty());
        (Seq::empty(), Seq::empty())
    }
}

proof fn lemma_no_line_end(t: Seq<char>, i: int)
    requires
        0 <= i <= t.len(),
        forall|j: int| i <= j < t.len() ==> t[j] != '\n',
    ensures
        line_end(t, i) == t.len(),
    decreases t.len() - i,
{
    if i < t.len() {
        lemma_no_line_end(t, i + 1);
    }
}

proof fn lemma_line_end_behind(t: Seq<char>, more: Seq<char>, i: int)
    requires
        0 <= i <= more.len(),
    ensures
        line_end(t + more, t.len() + i) == t.len() + line_end(more, i),
    decreases more.len() - i,
{
    if i < more.len() {
        assert((t + more)[t.len() + i] == more[i]);
        if more[i] != '\n' {
            lemma_line_end_behind(t, more, i + 1);
        }
    }
}

proof fn lemma_lines_behind(t: Seq<char>, more: Seq<char>, i: int)
    requires
        0 <= i <= more.len(),
    ensures
        lines_from(t + more, t.len() + i) == lines_from(more, i),
    decreases more.len() - i,
{
    if i < more.len() {
        lemma_line_end_behind(t, more, i);
        lemma_line_end(more, i);
        let e = line_end(more, i);
        assert((t + more).subrange(t.len() + i, t.len() + e) =~= more.subrange(i, e));
        if e < more.len() {
            lemma_lines_behind(t, more, e + 1);
        }
    }
}

proof fn lemma_lines_of_both(t: Seq<char>, more: Seq<char>, i: int)
    requires
        0 <= i <= t.len(),
        t.len() == 0 || t.last() == '\n',
    ensures
        lines_from(t + more, i) == lines_from(t, i) + lines_from(more, 0),
    decreases t.len() - i,
{
    if i == t.len() {
        lemma_lines_behind(t, more, 0);
        assert(lines_from(t, i) =~= Seq::empty());
        assert(lines_from(t, i) + lines_from(more, 0) =~= lines_from(more, 0));
    } else {
        lemma_line_end(t, i);
        let e = line_end(t, i);
        assert(e < t.len()) by {
            if e == t.len() {
                assert(t[t.len() - 1] != '\n');
            }
        }
        lemma_line_end_stays(t, more, i);
        lemma_lines_of_both(t, more, e + 1);
        assert((t + more).subrange(i, e) =~= t.subrange(i, e));
        assert(lines_from(t + more, i) =~= lines_from(t, i) + lines_from(more, 0));
    }
}

/// The lines of a text behind another one, whose last line is ended, come behind
/// the lines of that one.
pub proof fn lines_of_texts_in_a_row(t: Seq<char>, more: Seq<char>)
    requires
        t.len() == 0 || t.last() == '\n',
    ensures
        lines_of(t + more) == lines_of(t) + lines_of(more),
{
    lemma_lines_of_both(t, more, 0);
}

/// A text without a line feed is one line, unless it is empty; with a line feed
/// behind it, it is one line in any case, without the carriage return that may
/// stand at its end.
pub proof fn lines_of_one_line(line: Seq<char>)
    requires
        !line.contains('\n'),
    ensures
        lines_of(Seq::empty()).len() == 0,
        line.len() > 0 ==> lines_of(line) == seq![line],
        line.len() == 0 || line.last() != '\r' ==> lines_of(line.push('\n')) == seq![line],
        lines_of(line.push('\r').push('\n')) == seq![line],
{
    assert forall|j: int| 0 <= j < line.len() implies line[j] != '\n' by {
        assert(line.contains(line[j]));
    }
    lemma_no_line_end(line, 0);
    assert(line.subrange(0, line.len() as int) =~= line);
    let ended = line.push('\n');
    lemma_line_end_at(ended, 0, line.len() as int);
    assert(ended.subrange(0, line.len() as int) =~= line);
    assert(lines_from(ended, ended.len() as int) =~= Seq::empty());
    assert(seq![line] + Seq::<Seq<char>>::empty() =~= seq![line]);
    let longer = line.push('\r');
    let both = longer.push('\n');
    assert forall|j: int| 0 <= j < longer.len() implies both[j] != '\n' by {
        if j < line.len() {
            assert(both[j] == line[j]);
        }
    }
    lemma_line_end_at(both, 0, longer.len() as int);
    assert(both.subrange(0, longer.len() as int) =~= longer);
    assert(without_return(longer) =~= line);
    assert(lines_from(both, both.len() as int) =~= Seq::empty());
    assert(lines_from(both, 0) =~= seq![line]);
}

/// Joined texts are read back line by line: texts without line feeds and without
/// carriage returns at their ends, the last of them not empty, are the lines of
/// what they are joined to.
pub proof fn joined_texts_are_its_lines(parts: Seq<Seq<char>>)
    requires
        forall|i: int| 0 <= i < parts.len() ==> !(#[trigger] parts[i]).contains('\n'),
        forall|i: int|
            0 <= i < parts.len() ==> (#[trigger] parts[i]).len() == 0 || parts[i].last() != '\r',
        parts.len() > 0 ==> parts.last().len() > 0,
    ensures
        lines_of(joined(parts)) == parts,
{
    if parts.len() == 0 {
        assert(lines_of(joined(parts)) =~= parts);
    } else {
        let rest = parts.drop_last();
        let last = parts.last();
        assert(parts[parts.len() - 1] == last);
        lines_of_one_line(last);
        if parts.len() == 1 {
            assert(parts =~= seq![last]);
        } else {
            lemma_joined_is_read_back(rest);
            lines_of_texts_in_a_row(joined(rest).push('\n'), last);
            assert(parts =~= rest + seq![last]);
        }
    }
}

proof fn lemma_joined_is_read_back(parts: Seq<Seq<char>>)
    requires
        parts.len() > 0,
        forall|i: int| 0 <= i < parts.len() ==> !(#[trigger] parts[i]).contains('\n'),
        forall|i: int|
            0 <= i < parts.len() ==> (#[trigger] parts[i]).len() == 0 || parts[i].last() != '\r',
    ensures
        lines_of(joined(parts).push('\n')) == parts,
    decreases parts.len(),
{
    let rest = parts.drop_last();
    let last = parts.last();
    assert(parts[parts.len() - 1] == last);
    lines_of_one_line(last);
    if parts.len() == 1 {
        assert(parts =~= seq![last]);
    } else {
        lemma_joined_is_read_back(rest);
        let head = joined(rest).push('\n');
        assert(joined(parts).push('\n') =~= head + last.push('\n'));
        lines_of_texts_in_a_row(head, last.push('\n'));
        assert(parts =~= rest + seq![last]);
    }
}

/// All slashes at the end of a text are taken off, and nothing else.
pub proof fn only_slashes_at_the_end_are_taken_off(t: Seq<char>, n: nat)
    requires
        t.len() == 0 || t.last() != '/',
    ensures
        without_slashes(t + Seq::new(n, |i: int| '/')) == t,
    decreases n,
{
    let slashes = Seq::new(n, |i: int| '/');
    if n == 0 {
        assert(t + slashes =~= t);
    } else {
        let fewer = Seq::new((n - 1) as nat, |i: int| '/');
        assert((t + slashes).drop_last() =~= t + fewer);
        only_slashes_at_the_end_are_taken_off(t, (n - 1) as nat);
    }
}

/// The digits below sixteen.
pub proof fn the_hexadecimal_digits(n: int)
    requires
        0 <= n < 16,
    ensures
        hex_digit(n) == "0123456789abcdef"@[n],
{
    reveal_strlit("0123456789abcdef");
    let s = "0123456789abcdef"@;
    assert(s[0] == '0' && s[1] == '1' && s[2] == '2' && s[3] == '3' && s[4] == '4' && s[5] == '5'
        && s[6] == '6' && s[7] == '7' && s[8] == '8' && s[9] == '9' && s[10] == 'a' && s[11] == 'b'
        && s[12] == 'c' && s[13] == 'd' && s[14] == 'e' && s[15] == 'f');
    assert(n == 0 || n == 1 || n == 2 || n == 3 || n == 4 || n == 5 || n == 6 || n == 7 || n == 8
        || n == 9 || n == 10 || n == 11 || n == 12 || n == 13 || n == 14 || n == 15);
}

/// The number that digits stand for in a base, given what each of them stands for.
pub open spec fn number_of(digits: Seq<int>, base: int) -> int
    decreases digits.len(),
{
    if digits.len() == 0 {
        0
    } else {
        number_of(digits.drop_last(), base) * base + digits.last()
    }
}

/// The hexadecimal digits of a number that has no more of them stand for it.
pub proof fn hexadecimal_digits_stand_for_the_number(n: int, count: nat, digits: Seq<int>)
    requires
        0 <= n,
        digits.len() == count,
        forall|i: int| 0 <= i < count ==> 0 <= #[trigger] digits[i] < 16,
    ensures
        hex_digits(n, count).len() == count,
        number_of(digits, 16) == n ==> forall|i: int|
            0 <= i < count ==> #[trigger] hex_digits(n, count)[i] == "0123456789abcdef"@[digits[i]],
    decreases count,
{
    if count > 0 {
        let fewer = digits.drop_last();
        assert forall|i: int| 0 <= i < fewer.len() implies 0 <= #[trigger] fewer[i] < 16 by {
            assert(fewer[i] == digits[i]);
        }
        hexadecimal_digits_stand_for_the_number(n / 16, (count - 1) as nat, fewer);
        if number_of(digits, 16) == n {
            assert(digits[count - 1] == digits.last());
            assert(n / 16 == number_of(fewer, 16));
            the_hexadecimal_digits(n % 16);
            assert forall|i: int| 0 <= i < count implies #[trigger] hex_digits(n, count)[i]
                == "0123456789abcdef"@[digits[i]] by {
                if i < count - 1 {
                    assert(hex_digits(n, count)[i] == hex_digits(n / 16, (count - 1) as nat)[i]);
                    assert(fewer[i] == digits[i]);
                }
            }
        }
    }
}

/// What a decimal digit stands for.
pub open spec fn digit_value(c: char) -> int {
    c as int - '0' as int
}

/// The decimal digits of a number stand for it, and none of them is a zero that
/// could be left out.
pub proof fn decimal_digits_stand_for_the_number(n: nat)
    ensures
        forall|i: int|
            0 <= i < decimal_digits(n).len() ==> '0' <= #[trigger] decimal_digits(n)[i] <= '9',
        number_of(decimal_digits(n).map_values(|c: char| digit_value(c)), 10) == n,
        decimal_digits(n).len() > 0,
        decimal_digits(n)[0] == '0' ==> n == 0 && decimal_digits(n).len() == 1,
    decreases n,
{
    let s = decimal_digits(n);
    let values = s.map_values(|c: char| digit_value(c));
    if n < 10 {
        assert((48 + n) as char as int == 48 + n);
        assert(values.drop_last() =~= Seq::<int>::empty());
        assert(values.last() == n);
        assert(number_of(values.drop_last(), 10) == 0);
    } else {
        decimal_digits_stand_for_the_number(n / 10);
        let rest = decimal_digits(n / 10);
        assert((48 + n % 10) as char as int == 48 + n % 10);
        assert(values.drop_last() =~= rest.map_values(|c: char| digit_value(c)));
        assert(values.last() == n % 10);
        assert forall|i: int| 0 <= i < s.len() implies '0' <= #[trigger] s[i] <= '9' by {
            if i < rest.len() {
                assert(s[i] == rest[i]);
            }
        }
        assert(s[0] == rest[0]);
    }
}

} // verus!
