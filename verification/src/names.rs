//! Rules on names: which ones are valid, which lists of names are, and which
//! n-grams a list of names contains.

use crate::keyed;
use crate::keyed::KeyedMap;
use crate::text;
use vstd::prelude::*;
use vstd::utf8::*;

verus! {

/// Longest name that can be registered.
pub const MAX_NAME: usize = 63;

/// A lower-case letter of the English alphabet.
pub open spec fn is_lowercase(c: char) -> bool {
    'a' <= c <= 'z'
}

/// Only lower-case letters of the English alphabet.
pub open spec fn all_lowercase(n: Seq<char>) -> bool {
    forall|i: int| 0 <= i < n.len() ==> is_lowercase(#[trigger] n[i])
}

/// One to 63 lower-case letters.
pub open spec fn is_valid_name(n: Seq<char>) -> bool {
    1 <= n.len() <= MAX_NAME && all_lowercase(n)
}

/// Tells whether a text has only lower-case letters.
pub fn lowercase_only(t: &str) -> (r: bool)
    ensures
        r == all_lowercase(t@),
{
    let chars = text::chars_of(t);
    for i in 0..chars.len()
        invariant
            chars@ == t@,
            forall|j: int| 0 <= j < i ==> is_lowercase(#[trigger] t@[j]),
    {
        if !('a' <= chars[i] && chars[i] <= 'z') {
            assert(!is_lowercase(t@[i as int]));
            return false;
        }
    }
    true
}

/// Tells whether a name can be registered under `.com` as it is written.
pub fn valid_name(name: &str) -> (r: bool)
    ensures
        r == is_valid_name(name@),
{
    let n = text::chars_of(name).len();
    n > 0 && n <= MAX_NAME && lowercase_only(name)
}

/// Why a list of names was refused.
#[derive(Debug)]
pub enum NameError {
    /// Not one to 63 lower-case letters.
    Invalid(String),
    /// A name that occurred before.
    Duplicate(String),
}

/// What is said of a name that is not valid, given the name in quotation marks.
pub open spec fn invalid_text(quoted: Seq<char>) -> Seq<char> {
    "invalid name: "@ + quoted + " (expected 1 to 63 lowercase a-z letters)"@
}

/// Says that a name, given in quotation marks, is not valid.
pub fn invalid_message(quoted: &str) -> (r: String)
    ensures
        r@ == invalid_text(quoted@),
{
    let mut r = text::copy_text("invalid name: ");
    r.append(quoted);
    r.append(" (expected 1 to 63 lowercase a-z letters)");
    r
}

impl NameError {
    /// The error in words.
    pub open spec fn text(&self) -> Seq<char> {
        match self {
            NameError::Invalid(n) => invalid_text(text::debug_text(n@)),
            NameError::Duplicate(n) => "duplicate name in input: "@ + n@,
        }
    }

    /// The error in words.
    pub fn message(&self) -> (r: String)
        ensures
            r@ == self.text(),
    {
        match self {
            NameError::Invalid(n) => invalid_message(text::quoted(n.as_str()).as_str()),
            NameError::Duplicate(n) => {
                let mut r = text::copy_text("duplicate name in input: ");
                r.append(n.as_str());
                r
            },
        }
    }
}

/// The name at `i` occurs earlier in the list.
pub open spec fn repeats(names: Seq<Seq<char>>, i: int) -> bool {
    exists|j: int| 0 <= j < i && #[trigger] names[j] == names[i]
}

/// The name at `i` is valid and new.
pub open spec fn is_good_at(names: Seq<Seq<char>>, i: int) -> bool {
    is_valid_name(names[i]) && !repeats(names, i)
}

/// The name at `i` is the first one in the list that is not valid or not new.
pub open spec fn is_first_bad(names: Seq<Seq<char>>, i: int) -> bool {
    &&& 0 <= i < names.len()
    &&& !is_good_at(names, i)
    &&& forall|j: int| 0 <= j < i ==> #[trigger] is_good_at(names, j)
}

/// The bytes of the names before `i`.
pub open spec fn keys_before(names: Seq<Seq<char>>, i: int) -> Set<Seq<u8>> {
    Set::new(|k: Seq<u8>| exists|j: int| 0 <= j < i && k == encode_utf8(#[trigger] names[j]))
}

/// A name repeats an earlier one exactly when its bytes are already there.
pub(crate) proof fn lemma_repeats_by_key(names: Seq<Seq<char>>, i: int)
    requires
        0 <= i < names.len(),
    ensures
        keys_before(names, i).contains(encode_utf8(names[i])) == repeats(names, i),
        keys_before(names, i + 1) =~= keys_before(names, i).insert(encode_utf8(names[i])),
{
    if keys_before(names, i).contains(encode_utf8(names[i])) {
        let j = choose|j: int|
            0 <= j < i && encode_utf8(names[i]) == encode_utf8(#[trigger] names[j]);
        text::bytes_identify_text(names[i], names[j]);
        assert(names[j] == names[i]);
    }
    if repeats(names, i) {
        let j = choose|j: int| 0 <= j < i && #[trigger] names[j] == names[i];
        assert(encode_utf8(names[i]) == encode_utf8(names[j]));
    }
    assert forall|k: Seq<u8>| keys_before(names, i).insert(encode_utf8(names[i])).contains(
        k,
    ) implies #[trigger] keys_before(names, i + 1).contains(k) by {
        if k == encode_utf8(names[i]) {
        } else {
            let j = choose|j: int| 0 <= j < i && k == encode_utf8(#[trigger] names[j]);
            assert(0 <= j < i + 1);
        }
    }
    assert forall|k: Seq<u8>| #[trigger] keys_before(names, i + 1).contains(k) implies keys_before(
        names,
        i,
    ).insert(encode_utf8(names[i])).contains(k) by {
        let j = choose|j: int| 0 <= j < i + 1 && k == encode_utf8(#[trigger] names[j]);
        if j < i {
            assert(0 <= j < i);
        }
    }
}

/// Accepts a list of names that are all valid and all different.
pub fn ensure_valid_names(names: &[String]) -> (r: Result<(), NameError>)
    ensures
        match r {
            Ok(_) => forall|i: int|
                0 <= i < names@.len() ==> #[trigger] is_good_at(text::texts(names@), i),
            Err(NameError::Invalid(n)) => exists|i: int| #[trigger]
                is_first_bad(text::texts(names@), i) && !is_valid_name(names@[i]@) && n@
                    == names@[i]@,
            Err(NameError::Duplicate(n)) => exists|i: int| #[trigger]
                is_first_bad(text::texts(names@), i) && is_valid_name(names@[i]@) && n@
                    == names@[i]@,
        },
{
    let ghost all = text::texts(names@);
    let mut seen: KeyedMap<()> = KeyedMap::new();
    assert(seen@.dom() =~= keys_before(all, 0));
    for i in 0..names.len()
        invariant
            all == text::texts(names@),
            seen@.dom() == keys_before(all, i as int),
            forall|j: int| 0 <= j < i ==> #[trigger] is_good_at(all, j),
    {
        proof {
            lemma_repeats_by_key(all, i as int);
        }
        let name = names[i].as_str();
        assert(all[i as int] == name@);
        if !valid_name(name) {
            assert(is_first_bad(all, i as int));
            return Err(NameError::Invalid(text::copy_text(name)));
        }
        if seen.contains(name.as_bytes()) {
            assert(is_first_bad(all, i as int));
            return Err(NameError::Duplicate(text::copy_text(name)));
        }
        seen.insert(bytes_vec(name), ());
        assert(seen@.dom() =~= keys_before(all, i + 1));
    }
    Ok(())
}

/// The bytes of a text, owned.
pub(crate) fn bytes_vec(t: &str) -> (r: Vec<u8>)
    ensures
        r@ == encode_utf8(t@),
{
    let bytes = t.as_bytes();
    copy_bytes(bytes, 0, bytes.len())
}

/// The bytes from `start` to `end`, owned.
pub(crate) fn copy_bytes(bytes: &[u8], start: usize, end: usize) -> (r: Vec<u8>)
    requires
        start <= end <= bytes@.len(),
    ensures
        r@ == bytes@.subrange(start as int, end as int),
{
    let mut r: Vec<u8> = Vec::new();
    for i in start..end
        invariant
            end <= bytes@.len(),
            r@ =~= bytes@.subrange(start as int, i as int),
    {
        r.push(bytes[i]);
    }
    r
}

/// `g` is `k` consecutive bytes of `bytes`.
pub open spec fn is_gram(g: Seq<u8>, bytes: Seq<u8>, k: nat) -> bool {
    exists|i: int| #[trigger] gram_at(g, bytes, k, i)
}

/// `g` is the `k` bytes of `bytes` from `i` on.
pub open spec fn gram_at(g: Seq<u8>, bytes: Seq<u8>, k: nat, i: int) -> bool {
    0 <= i && i + k <= bytes.len() && g == bytes.subrange(i, i + k)
}

/// The n-grams of size `k` of a list of words; of size zero there are none.
pub open spec fn grams_of(words: Seq<Seq<char>>, k: nat) -> Set<Seq<u8>> {
    Set::new(
        |g: Seq<u8>|
            k > 0 && exists|w: int|
                0 <= w < words.len() && is_gram(g, encode_utf8(#[trigger] words[w]), k),
    )
}

/// Adds the n-grams of size `k` of one more word to those of `words`.
pub(crate) fn add_grams(
    set: &mut KeyedMap<()>,
    word: &str,
    k: usize,
    Ghost(words): Ghost<Seq<Seq<char>>>,
)
    requires
        k > 0,
        old(set)@.dom() == grams_of(words, k as nat),
    ensures
        final(set)@.dom() == grams_of(words.push(word@), k as nat),
{
    let bytes = word.as_bytes();
    let ghost before = set@.dom();
    let count: usize = gram_count(bytes.len(), k);
    for i in 0..count
        invariant
            k > 0,
            bytes@ == encode_utf8(word@),
            count == (if bytes.len() >= k {
                bytes.len() - k + 1
            } else {
                0
            }),
            forall|g: Seq<u8>| #[trigger]
                set@.dom().contains(g) <==> before.contains(g) || exists|j: int|
                    j < i && #[trigger] gram_at(g, bytes@, k as nat, j),
    {
        let ghost old_set = set@.dom();
        let gram = copy_bytes(bytes, i, i + k);
        set.insert(gram, ());
        assert(gram_at(gram@, bytes@, k as nat, i as int));
        assert forall|g: Seq<u8>| #[trigger]
            set@.dom().contains(g) <==> before.contains(g) || exists|j: int|
                j < i + 1 && #[trigger] gram_at(g, bytes@, k as nat, j) by {
            if set@.dom().contains(g) && !before.contains(g) {
                if old_set.contains(g) {
                    let j = choose|j: int| j < i && #[trigger] gram_at(g, bytes@, k as nat, j);
                    assert(j < i + 1);
                }
            }
            if exists|j: int| j < i + 1 && #[trigger] gram_at(g, bytes@, k as nat, j) {
                let j = choose|j: int| j < i + 1 && #[trigger] gram_at(g, bytes@, k as nat, j);
                if j < i {
                    assert(old_set.contains(g));
                }
            }
        }
    }
    proof {
        let longer = words.push(word@);
        let n = words.len() as int;
        assert forall|g: Seq<u8>| #[trigger] set@.dom().contains(g) <==> grams_of(
            longer,
            k as nat,
        ).contains(g) by {
            if set@.dom().contains(g) {
                if before.contains(g) {
                    let v = choose|v: int|
                        0 <= v < n && is_gram(g, encode_utf8(#[trigger] words[v]), k as nat);
                    assert(longer[v] == words[v]);
                } else {
                    assert(longer[n] == word@);
                }
            }
            if grams_of(longer, k as nat).contains(g) {
                let v = choose|v: int|
                    0 <= v < longer.len() && is_gram(
                        g,
                        encode_utf8(#[trigger] longer[v]),
                        k as nat,
                    );
                if v < n {
                    assert(words[v] == longer[v]);
                    assert(before.contains(g));
                } else {
                    let j = choose|j: int| #[trigger] gram_at(g, bytes@, k as nat, j);
                    assert(j < count);
                }
            }
        }
        assert(set@.dom() =~= grams_of(longer, k as nat));
    }
}

/// All n-grams of size `k` present in a list of words.
pub fn ngrams(words: &[String], k: usize) -> (set: KeyedMap<()>)
    ensures
        set@.dom() == grams_of(text::texts(words@), k as nat),
{
    let ghost all = text::texts(words@);
    let mut set: KeyedMap<()> = KeyedMap::new();
    if k == 0 {
        assert(set@.dom() =~= grams_of(all, 0));
        return set;
    }
    assert(set@.dom() =~= grams_of(all.take(0), k as nat));
    for w in 0..words.len()
        invariant
            k > 0,
            all == text::texts(words@),
            set@.dom() == grams_of(all.take(w as int), k as nat),
    {
        let word = words[w].as_str();
        assert(all.take(w + 1) =~= all.take(w as int).push(word@));
        add_grams(&mut set, word, k, Ghost(all.take(w as int)));
    }
    assert(all.take(words@.len() as int) =~= all);
    set
}

/// Number of n-grams of size `k` in a word of `len` bytes.
fn gram_count(len: usize, k: usize) -> (r: usize)
    requires
        k > 0,
    ensures
        r == (if len >= k {
            len - k + 1
        } else {
            0
        }),
{
    if len >= k {
        len - k + 1
    } else {
        0
    }
}

/// Some n-gram of size `k` of the name is in the set.
pub open spec fn shares(name: Seq<char>, k: nat, set: Set<Seq<u8>>) -> bool {
    exists|i: int|
        0 <= i && i + k <= encode_utf8(name).len() && set.contains(
            #[trigger] encode_utf8(name).subrange(i, i + k),
        )
}

/// Tells whether some n-gram of size `k` of the name is in the set.
pub fn shares_gram(name: &str, k: usize, set: &KeyedMap<()>) -> (r: bool)
    requires
        k > 0,
    ensures
        r == shares(name@, k as nat, set@.dom()),
{
    let bytes = name.as_bytes();
    let count: usize = gram_count(bytes.len(), k);
    for i in 0..count
        invariant
            k > 0,
            bytes@ == encode_utf8(name@),
            count == (if bytes.len() >= k {
                bytes.len() - k + 1
            } else {
                0
            }),
            forall|j: int| 0 <= j < i ==> !set@.dom().contains(#[trigger] bytes@.subrange(j, j + k)),
    {
        let gram = copy_bytes(bytes, i, i + k);
        if set.contains(gram.as_slice()) {
            assert(set@.dom().contains(bytes@.subrange(i as int, i + k)));
            return true;
        }
    }
    false
}

/// The seeds in a corpus file: its lines, without the white space around them,
/// as far as they have only lower-case letters.
pub open spec fn seeds_in(raw: Seq<char>) -> Seq<Seq<char>> {
    text::lines_of(raw).map_values(|l: Seq<char>| text::trimmed(l)).filter(
        |l: Seq<char>| l.len() > 0 && all_lowercase(l),
    )
}

/// Reads a corpus file, one seed per line.
pub fn corpus(raw: &str) -> (words: Vec<String>)
    ensures
        text::texts(words@) == seeds_in(raw@),
{
    let lines = text::lines(raw);
    let ghost trimmed = text::lines_of(raw@).map_values(|l: Seq<char>| text::trimmed(l));
    let ghost keep = |l: Seq<char>| l.len() > 0 && all_lowercase(l);
    let mut words: Vec<String> = Vec::new();
    proof {
        reveal(Seq::filter);
        assert(text::texts(words@) =~= trimmed.take(0).filter(keep));
    }
    for i in 0..lines.len()
        invariant
            text::texts(lines@) == text::lines_of(raw@),
            trimmed == text::lines_of(raw@).map_values(|l: Seq<char>| text::trimmed(l)),
            keep == (|l: Seq<char>| l.len() > 0 && all_lowercase(l)),
            text::texts(words@) == trimmed.take(i as int).filter(keep),
    {
        assert(text::texts(lines@)[i as int] == lines@[i as int]@);
        let line = text::trim(lines[i].as_str());
        proof {
            reveal(Seq::filter);
            assert(trimmed.take(i + 1).drop_last() =~= trimmed.take(i as int));
            assert(trimmed.take(i + 1).last() == line@);
        }
        let ghost before = text::texts(words@);
        if !line.as_str().is_empty() && lowercase_only(line.as_str()) {
            words.push(line);
            assert(text::texts(words@) =~= before.push(line@));
        }
    }
    assert(trimmed.take(lines@.len() as int) =~= trimmed);
    words
}

/// Every seed has at least one letter and only lower-case ones.
pub proof fn seeds_are_lowercase(raw: Seq<char>, i: int)
    requires
        0 <= i < seeds_in(raw).len(),
    ensures
        seeds_in(raw)[i].len() > 0,
        all_lowercase(seeds_in(raw)[i]),
{
    text::lines_of(raw).map_values(|l: Seq<char>| text::trimmed(l)).lemma_filter_pred(
        |l: Seq<char>| l.len() > 0 && all_lowercase(l),
        i,
    );
}

/// The bytes of a lower-case word are its letters, so that a model can be
/// trained on it and can score it.
pub proof fn lowercase_is_in_alphabet(n: Seq<char>)
    requires
        all_lowercase(n),
    ensures
        crate::markov::in_alphabet(encode_utf8(n)),
        encode_utf8(n).len() == n.len(),
        forall|i: int| 0 <= i < n.len() ==> #[trigger] encode_utf8(n)[i] == n[i] as u8,
{
    assert(is_ascii_chars(n)) by {
        assert forall|i: int| 0 <= i < n.len() implies '\0' <= #[trigger] n[i] <= '\u{7f}' by {
            assert(is_lowercase(n[i]));
        }
    }
    is_ascii_chars_encode_utf8(n);
    assert forall|i: int| 0 <= i < n.len() implies 97 <= #[trigger] encode_utf8(n)[i] <= 123 by {
        assert(is_lowercase(n[i]));
    }
}

// What the rules come to

/// A name is valid exactly when it has at least one letter and at most sixty-three,
/// all of them from a to z.
pub proof fn valid_names_are_letters(n: Seq<char>)
    ensures
        is_valid_name(n) <==> n.len() != 0 && n.len() < 64 && forall|i: int|
            0 <= i < n.len() ==> 97 <= #[trigger] n[i] as int && n[i] as int <= 122,
{
    if n.len() != 0 && n.len() < 64 && forall|i: int|
        0 <= i < n.len() ==> 97 <= #[trigger] n[i] as int && n[i] as int <= 122 {
        assert forall|i: int| 0 <= i < n.len() implies is_lowercase(#[trigger] n[i]) by {}
    }
    if is_valid_name(n) {
        assert forall|i: int| 0 <= i < n.len() implies 97 <= #[trigger] n[i] as int && n[i] as int
            <= 122 by {
            assert(is_lowercase(n[i]));
        }
    }
}

/// What is left of a valid name when letters are cut off its ends is valid, as long
/// as there is something left.
pub proof fn pieces_of_valid_names_are_valid(n: Seq<char>, i: int, j: int)
    requires
        is_valid_name(n),
        0 <= i < j <= n.len(),
    ensures
        is_valid_name(n.subrange(i, j)),
{
    assert forall|x: int| 0 <= x < n.subrange(i, j).len() implies is_lowercase(
        #[trigger] n.subrange(i, j)[x],
    ) by {
        assert(is_lowercase(n[i + x]));
    }
}

/// A list is accepted exactly when all its names are valid and no two are the same.
pub proof fn accepted_lists_have_no_duplicates(names: Seq<Seq<char>>)
    ensures
        (forall|i: int| 0 <= i < names.len() ==> #[trigger] is_good_at(names, i)) <==> {
            &&& names.no_duplicates()
            &&& forall|i: int| 0 <= i < names.len() ==> is_valid_name(#[trigger] names[i])
        },
{
    if forall|i: int| 0 <= i < names.len() ==> #[trigger] is_good_at(names, i) {
        assert forall|i: int| 0 <= i < names.len() implies is_valid_name(#[trigger] names[i]) by {
            assert(is_good_at(names, i));
        }
        assert forall|i: int, j: int| 0 <= i < names.len() && 0 <= j < names.len() && i != j implies
            names[i] != names[j] by {
            assert(is_good_at(names, i) && is_good_at(names, j));
            if names[i] == names[j] {
                if i < j {
                    assert(repeats(names, j));
                } else {
                    assert(repeats(names, i));
                }
            }
        }
    }
    if names.no_duplicates() && forall|i: int|
        0 <= i < names.len() ==> is_valid_name(#[trigger] names[i]) {
        assert forall|i: int| 0 <= i < names.len() implies #[trigger] is_good_at(names, i) by {
            assert(is_valid_name(names[i]));
            if repeats(names, i) {
                let j = choose|j: int| 0 <= j < i && #[trigger] names[j] == names[i];
                assert(names[j] != names[i]);
            }
        }
    }
}

/// What a list is refused for is its first fault: the names before it are valid
/// and all different, and it is not valid or is among them.
pub proof fn lists_are_refused_for_their_first_fault(names: Seq<Seq<char>>, i: int)
    ensures
        is_first_bad(names, i) <==> {
            &&& 0 <= i < names.len()
            &&& names.take(i).no_duplicates()
            &&& forall|j: int| 0 <= j < i ==> is_valid_name(#[trigger] names[j])
            &&& !is_valid_name(names[i]) || names.take(i).contains(names[i])
        },
{
    if 0 <= i < names.len() {
        let before = names.take(i);
        accepted_lists_have_no_duplicates(before);
        assert forall|j: int| 0 <= j < i implies is_good_at(before, j) == #[trigger] is_good_at(
            names,
            j,
        ) by {
            if repeats(names, j) {
                let x = choose|x: int| 0 <= x < j && #[trigger] names[x] == names[j];
                assert(before[x] == before[j]);
            }
            if repeats(before, j) {
                let x = choose|x: int| 0 <= x < j && #[trigger] before[x] == before[j];
                assert(names[x] == names[j]);
            }
        }
        if repeats(names, i) {
            let x = choose|x: int| 0 <= x < i && #[trigger] names[x] == names[i];
            assert(before[x] == names[i]);
        }
        if before.contains(names[i]) {
            let x = choose|x: int| 0 <= x < before.len() && before[x] == names[i];
            assert(names[x] == names[i]);
        }
        if is_first_bad(names, i) {
            assert forall|j: int| 0 <= j < before.len() implies #[trigger] is_good_at(
                before,
                j,
            ) by {
                assert(is_good_at(names, j));
            }
            assert forall|j: int| 0 <= j < i implies is_valid_name(#[trigger] names[j]) by {
                assert(is_good_at(names, j));
            }
        }
        if before.no_duplicates() && forall|j: int|
            0 <= j < i ==> is_valid_name(#[trigger] names[j]) {
            assert forall|j: int| 0 <= j < before.len() implies is_valid_name(
                #[trigger] before[j],
            ) by {
                assert(is_valid_name(names[j]));
            }
            assert forall|j: int| 0 <= j < i implies #[trigger] is_good_at(names, j) by {
                assert(is_good_at(before, j));
            }
        }
    }
}

/// The `k` bytes of `a` from `i` on are the `k` bytes of `b` from `j` on.
pub open spec fn same_run(a: Seq<u8>, b: Seq<u8>, k: nat, i: int, j: int) -> bool {
    &&& 0 <= i
    &&& 0 <= j
    &&& i + k <= a.len()
    &&& j + k <= b.len()
    &&& forall|d: int| #![trigger a[i + d]] 0 <= d < k ==> a[i + d] == b[j + d]
}

/// The two texts have `k` bytes in a row in common.
pub open spec fn have_run_in_common(a: Seq<char>, b: Seq<char>, k: nat) -> bool {
    exists|i: int, j: int| #[trigger] same_run(encode_utf8(a), encode_utf8(b), k, i, j)
}

pub(crate) proof fn lemma_same_run(a: Seq<u8>, b: Seq<u8>, k: nat, i: int, j: int)
    requires
        0 <= i,
        0 <= j,
        i + k <= a.len(),
        j + k <= b.len(),
    ensures
        same_run(a, b, k, i, j) <==> a.subrange(i, i + k) == b.subrange(j, j + k),
{
    let x = a.subrange(i, i + k);
    let y = b.subrange(j, j + k);
    if same_run(a, b, k, i, j) {
        assert forall|d: int| 0 <= d < k implies x[d] == y[d] by {
            assert(a[i + d] == b[j + d]);
        }
        assert(x =~= y);
    }
    if x == y {
        assert forall|d: int| #![trigger a[i + d]] 0 <= d < k implies a[i + d] == b[j + d] by {
            assert(x[d] == y[d]);
        }
    }
}

/// A name shares an n-gram of size `k` with a list of words exactly when it has
/// `k` bytes in a row in common with one of them.
pub proof fn sharing_is_having_a_run_in_common(name: Seq<char>, words: Seq<Seq<char>>, k: nat)
    requires
        k > 0,
    ensures
        shares(name, k, grams_of(words, k)) <==> exists|w: int|
            0 <= w < words.len() && #[trigger] have_run_in_common(name, words[w], k),
{
    let a = encode_utf8(name);
    if shares(name, k, grams_of(words, k)) {
        let i = choose|i: int|
            0 <= i && i + k <= a.len() && grams_of(words, k).contains(
                #[trigger] a.subrange(i, i + k),
            );
        let g = a.subrange(i, i + k);
        let w = choose|w: int|
            0 <= w < words.len() && is_gram(g, encode_utf8(#[trigger] words[w]), k);
        let b = encode_utf8(words[w]);
        let j = choose|j: int| #[trigger] gram_at(g, b, k, j);
        lemma_same_run(a, b, k, i, j);
        assert(same_run(a, b, k, i, j));
        assert(have_run_in_common(name, words[w], k));
    }
    if exists|w: int| 0 <= w < words.len() && #[trigger] have_run_in_common(name, words[w], k) {
        let w = choose|w: int|
            0 <= w < words.len() && #[trigger] have_run_in_common(name, words[w], k);
        let b = encode_utf8(words[w]);
        let (i, j) = choose|i: int, j: int| #[trigger] same_run(a, b, k, i, j);
        lemma_same_run(a, b, k, i, j);
        let g = a.subrange(i, i + k);
        assert(gram_at(g, b, k, j));
        assert(is_gram(g, encode_utf8(words[w]), k));
        assert(grams_of(words, k).contains(g));
    }
}

/// The n-grams of a list are the pieces of `k` bytes that its words are made of,
/// with something before and something behind them.
pub proof fn grams_are_pieces_of_words(words: Seq<Seq<char>>, k: nat, g: Seq<u8>)
    ensures
        grams_of(words, k).contains(g) <==> k > 0 && g.len() == k && exists|w: int, a: Seq<u8>, b: Seq<u8>|
            0 <= w < words.len() && #[trigger] encode_utf8(words[w]) == #[trigger] (a + g + b),
{
    if grams_of(words, k).contains(g) {
        let w = choose|w: int|
            0 <= w < words.len() && is_gram(g, encode_utf8(#[trigger] words[w]), k);
        let bytes = encode_utf8(words[w]);
        let i = choose|i: int| #[trigger] gram_at(g, bytes, k, i);
        let a = bytes.take(i);
        let b = bytes.skip(i + k);
        assert(bytes =~= a + g + b);
    }
    if k > 0 && g.len() == k && exists|w: int, a: Seq<u8>, b: Seq<u8>|
        0 <= w < words.len() && #[trigger] encode_utf8(words[w]) == #[trigger] (a + g + b) {
        let (w, a, b) = choose|w: int, a: Seq<u8>, b: Seq<u8>|
            0 <= w < words.len() && #[trigger] encode_utf8(words[w]) == #[trigger] (a + g + b);
        let bytes = encode_utf8(words[w]);
        assert(bytes.subrange(a.len() as int, (a.len() + k) as int) =~= g);
        assert(gram_at(g, bytes, k, a.len() as int));
        assert(is_gram(g, encode_utf8(words[w]), k));
    }
}

/// The seeds of a text behind another one, whose last line is ended, come behind
/// the seeds of that one: every line is looked at by itself, and the order is kept.
pub proof fn seeds_of_texts_in_a_row(t: Seq<char>, more: Seq<char>)
    requires
        t.len() == 0 || t.last() == '\n',
    ensures
        seeds_in(t + more) == seeds_in(t) + seeds_in(more),
{
    text::lines_of_texts_in_a_row(t, more);
    let f = |l: Seq<char>| text::trimmed(l);
    let p = |l: Seq<char>| l.len() > 0 && all_lowercase(l);
    let a = text::lines_of(t);
    let b = text::lines_of(more);
    assert((a + b).map_values(f) =~= a.map_values(f) + b.map_values(f));
    Seq::filter_distributes_over_add(a.map_values(f), b.map_values(f), p);
}

proof fn lemma_seeds_of_line(raw: Seq<char>, line: Seq<char>)
    requires
        text::lines_of(raw) == seq![line],
    ensures
        seeds_in(raw) == (if text::trimmed(line).len() > 0 && all_lowercase(text::trimmed(line)) {
            seq![text::trimmed(line)]
        } else {
            Seq::empty()
        }),
{
    let f = |l: Seq<char>| text::trimmed(l);
    let p = |l: Seq<char>| l.len() > 0 && all_lowercase(l);
    let one = seq![text::trimmed(line)];
    assert(seq![line].map_values(f) =~= one);
    reveal(Seq::filter);
    assert(one.drop_last() =~= Seq::<Seq<char>>::empty());
    assert(one.drop_last().filter(p) =~= Seq::<Seq<char>>::empty());
    assert(one.filter(p) =~= if p(one.last()) {
        one
    } else {
        Seq::empty()
    });
}

/// The seeds of a line, with a line feed behind it or without.
proof fn lemma_seeds_of_one_line(line: Seq<char>, t: Seq<char>)
    requires
        !line.contains('\n'),
        t == text::trimmed(line),
    ensures
        t.len() > 0 && all_lowercase(t) ==> seeds_in(line) == seq![t] && seeds_in(line.push('\n'))
            == seq![t],
        !(t.len() > 0 && all_lowercase(t)) ==> seeds_in(line).len() == 0 && seeds_in(
            line.push('\n'),
        ).len() == 0,
{
    text::lines_of_one_line(line);
    if line.len() > 0 {
        lemma_seeds_of_line(line, line);
    } else {
        let f = |l: Seq<char>| text::trimmed(l);
        assert(text::lines_of(line).map_values(f) =~= Seq::<Seq<char>>::empty());
        reveal(Seq::filter);
    }
    if line.len() == 0 || line.last() != '\r' {
        lemma_seeds_of_line(line.push('\n'), line);
    } else {
        let rest = line.drop_last();
        assert(line =~= rest.push('\r'));
        assert(!rest.contains('\n')) by {
            if rest.contains('\n') {
                let i = choose|i: int| 0 <= i < rest.len() && rest[i] == '\n';
                assert(line[i] == '\n');
            }
        }
        text::lines_of_one_line(rest);
        lemma_seeds_of_line(line.push('\n'), rest);
        let (a, b) = text::texts_have_a_trimmed_middle(rest);
        let more = b.push('\r');
        assert forall|i: int| 0 <= i < more.len() implies text::is_white_space(
            #[trigger] more[i],
        ) by {
            if i < b.len() {
                assert(more[i] == b[i]);
            }
        }
        text::trimming_leaves_what_the_white_space_surrounds(a, text::trimmed(rest), more);
        assert(a + text::trimmed(rest) + more =~= line);
        assert(text::trimmed(line) == text::trimmed(rest));
    }
}

/// Every line with nothing but letters from a to z on it, at least one of them,
/// is a seed, however long it is and whatever white space stands around it.
pub proof fn every_word_on_a_line_is_a_seed(a: Seq<char>, word: Seq<char>, b: Seq<char>)
    requires
        word.len() > 0,
        forall|i: int| 0 <= i < word.len() ==> 'a' <= #[trigger] word[i] && word[i] <= 'z',
        forall|i: int|
            0 <= i < a.len() ==> text::is_white_space(#[trigger] a[i]) && a[i] != '\n',
        forall|i: int|
            0 <= i < b.len() ==> text::is_white_space(#[trigger] b[i]) && b[i] != '\n',
    ensures
        seeds_in(a + word + b) == seq![word],
        seeds_in((a + word + b).push('\n')) == seq![word],
{
    let line = a + word + b;
    assert forall|i: int| 0 <= i < word.len() implies is_lowercase(#[trigger] word[i]) by {}
    assert(!text::is_white_space(word[0]) && !text::is_white_space(word.last())) by {
        assert(is_lowercase(word[0]) && is_lowercase(word[word.len() - 1]));
    }
    text::trimming_leaves_what_the_white_space_surrounds(a, word, b);
    assert forall|i: int| 0 <= i < line.len() implies line[i] != '\n' by {
        if i < a.len() {
            assert(line[i] == a[i]);
        } else if i < a.len() + word.len() {
            assert(line[i] == word[i - a.len()]);
        } else {
            assert(line[i] == b[i - a.len() - word.len()]);
        }
    }
    lemma_seeds_of_one_line(line, word);
}

/// A line with nothing on it but white space, or with some other character than
/// the letters from a to z and the white space around them, is no seed.
pub proof fn other_lines_are_no_seeds(a: Seq<char>, t: Seq<char>, b: Seq<char>)
    requires
        t.len() == 0 || exists|i: int|
            0 <= i < t.len() && !('a' <= #[trigger] t[i] && t[i] <= 'z'),
        t.len() == 0 || !text::is_white_space(t[0]) && !text::is_white_space(t.last()),
        !t.contains('\n'),
        forall|i: int|
            0 <= i < a.len() ==> text::is_white_space(#[trigger] a[i]) && a[i] != '\n',
        forall|i: int|
            0 <= i < b.len() ==> text::is_white_space(#[trigger] b[i]) && b[i] != '\n',
    ensures
        seeds_in(a + t + b).len() == 0,
        seeds_in((a + t + b).push('\n')).len() == 0,
{
    let line = a + t + b;
    text::trimming_leaves_what_the_white_space_surrounds(a, t, b);
    assert forall|i: int| 0 <= i < line.len() implies line[i] != '\n' by {
        if i < a.len() {
            assert(line[i] == a[i]);
        } else if i < a.len() + t.len() {
            assert(line[i] == t[i - a.len()]);
            assert(t.contains(t[i - a.len()]));
        } else {
            assert(line[i] == b[i - a.len() - t.len()]);
        }
    }
    if t.len() > 0 {
        let i = choose|i: int| 0 <= i < t.len() && !('a' <= #[trigger] t[i] && t[i] <= 'z');
        assert(!is_lowercase(t[i]));
    }
    lemma_seeds_of_one_line(line, t);
}

/// What is said of a name that was refused holds the name: in quotation marks where
/// it is not valid, and as it is where it came twice.
pub proof fn refusals_hold_the_name(n: String)
    ensures
        NameError::Invalid(n).text() == "invalid name: "@ + text::debug_text(n@)
            + " (expected 1 to 63 lowercase a-z letters)"@,
        NameError::Duplicate(n).text() == "duplicate name in input: "@ + n@,
{
}

} // verus!
