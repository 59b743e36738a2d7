//! Character classes and small text helpers shared by the tokenizers.
use vstd::prelude::*;

verus! {

/// `c` is an ASCII decimal digit, `'0'..='9'`.
pub open spec fn spec_is_ascii_digit(c: char) -> bool {
    '0' <= c && c <= '9'
}

/// Whether `c` is an ASCII decimal digit (`char::is_ascii_digit`).
pub fn is_ascii_digit(c: char) -> (r: bool)
    ensures
        r == spec_is_ascii_digit(c),
{
    '0' <= c && c <= '9'
}

/// Whether `c` has the Unicode `White_Space` property, the property that
/// `char::is_whitespace` answers: U+0009..U+000D, U+0020, U+0085, U+00A0,
/// U+1680, U+2000..U+200A, U+2028, U+2029, U+202F, U+205F and U+3000.
pub open spec fn char_is_whitespace(c: char) -> bool {
    ||| ('\u{9}' <= c && c <= '\u{d}')
    ||| c == ' '
    ||| c == '\u{85}'
    ||| c == '\u{a0}'
    ||| c == '\u{1680}'
    ||| ('\u{2000}' <= c && c <= '\u{200a}')
    ||| c == '\u{2028}'
    ||| c == '\u{2029}'
    ||| c == '\u{202f}'
    ||| c == '\u{205f}'
    ||| c == '\u{3000}'
}

/// `c` is in the ASCII range.
pub open spec fn spec_is_ascii(c: char) -> bool {
    c < '\u{80}'
}

/// `c` is an ASCII letter.
pub open spec fn spec_is_ascii_letter(c: char) -> bool {
    ('a' <= c && c <= 'z') || ('A' <= c && c <= 'Z')
}

/// `c` with an ASCII capital letter made small; any other character unchanged.
pub open spec fn ascii_lower(c: char) -> char {
    if 'A' <= c && c <= 'Z' {
        ((c as u32) + 32) as char
    } else {
        c
    }
}

/// Whether a character outside ASCII has the Unicode `Alphabetic` property,
/// as `char::is_alphabetic` answers.
pub uninterp spec fn non_ascii_alphabetic(c: char) -> bool;

/// Whether a character outside ASCII is alphabetic or numeric in Unicode's
/// sense, as `char::is_alphanumeric` answers.
pub uninterp spec fn non_ascii_alphanumeric(c: char) -> bool;

/// The Unicode lowercase mapping of a text that holds a character outside
/// ASCII, as `str::to_lowercase` computes it.
pub uninterp spec fn non_ascii_lowercase(s: Seq<char>) -> Seq<char>;

/// Whether `c` has the Unicode `Alphabetic` property (`char::is_alphabetic`):
/// within ASCII, exactly the letters.
pub open spec fn char_is_alphabetic(c: char) -> bool {
    if spec_is_ascii(c) {
        spec_is_ascii_letter(c)
    } else {
        non_ascii_alphabetic(c)
    }
}

/// Whether `c` is alphabetic or numeric in Unicode's sense
/// (`char::is_alphanumeric`): within ASCII, exactly the letters and digits.
pub open spec fn char_is_alphanumeric(c: char) -> bool {
    if spec_is_ascii(c) {
        spec_is_ascii_letter(c) || spec_is_ascii_digit(c)
    } else {
        non_ascii_alphanumeric(c)
    }
}

/// Every character of `s` is ASCII.
pub open spec fn all_ascii(s: Seq<char>) -> bool {
    forall|k: int| 0 <= k < s.len() ==> spec_is_ascii(#[trigger] s[k])
}

/// The Unicode lowercase mapping of a text (`str::to_lowercase`): an ASCII
/// text has each capital letter made small and nothing else changed.
pub open spec fn text_to_lowercase(s: Seq<char>) -> Seq<char> {
    if all_ascii(s) {
        s.map_values(|c: char| ascii_lower(c))
    } else {
        non_ascii_lowercase(s)
    }
}

/// Whether `c` is whitespace in Unicode's sense (`char::is_whitespace`).
pub fn is_whitespace(c: char) -> (r: bool)
    ensures
        r == char_is_whitespace(c),
{
    ('\u{9}' <= c && c <= '\u{d}') || c == ' ' || c == '\u{85}' || c == '\u{a0}' || c == '\u{1680}'
        || ('\u{2000}' <= c && c <= '\u{200a}') || c == '\u{2028}' || c == '\u{2029}' || c
        == '\u{202f}' || c == '\u{205f}' || c == '\u{3000}'
}

/// Calls `char::is_alphabetic`. Within ASCII the `Alphabetic` property holds
/// exactly of the letters; outside ASCII the result is named `non_ascii_alphabetic(c)`.
#[verifier::external_body]
pub(crate) fn is_alphabetic(c: char) -> (r: bool)
    ensures
        r == if spec_is_ascii(c) {
            spec_is_ascii_letter(c)
        } else {
            non_ascii_alphabetic(c)
        },
{
    c.is_alphabetic()
}

/// Calls `char::is_alphanumeric`, documented as `is_alphabetic() || is_numeric()`.
/// Within ASCII that is exactly the letters and digits; outside ASCII the
/// result is named `non_ascii_alphanumeric(c)`, and it holds of every
/// alphabetic character.
#[verifier::external_body]
pub(crate) fn is_alphanumeric(c: char) -> (r: bool)
    ensures
        r == if spec_is_ascii(c) {
            spec_is_ascii_letter(c) || spec_is_ascii_digit(c)
        } else {
            non_ascii_alphanumeric(c)
        },
        char_is_alphabetic(c) ==> r,
{
    c.is_alphanumeric()
}

/// Calls `str::to_lowercase`. An ASCII text gets each capital letter made
/// small and nothing else changed; the lowercase of any other text is named
/// `non_ascii_lowercase(s@)`.
#[verifier::external_body]
pub(crate) fn to_lowercase(s: &str) -> (r: String)
    ensures
        r@ == if all_ascii(s@) {
            s@.map_values(|c: char| ascii_lower(c))
        } else {
            non_ascii_lowercase(s@)
        },
{
    s.to_lowercase()
}

/// Collects `runes[start..end]` into a `String` (`FromIterator<&char>` for `String`):
/// the new string holds exactly those characters.
#[verifier::external_body]
pub(crate) fn text_of(runes: &[char], start: usize, end: usize) -> (r: String)
    requires
        start <= end <= runes@.len(),
    ensures
        r@ == runes@.subrange(start as int, end as int),
{
    runes[start..end].iter().collect()
}

/// The characters of `s`, in order.
pub fn chars_of(s: &str) -> (v: Vec<char>)
    ensures
        v@ == s@,
{
    broadcast use vstd::string::group_string_axioms;
    let mut v: Vec<char> = Vec::new();
    for c in it: s.chars()
        invariant
            v@ == it.seq().take(it.index() as int),
    {
        v.push(c);
    }
    v
}

/// Whether two texts hold the same characters.
pub fn same_text(a: &str, b: &str) -> (r: bool)
    ensures
        r == (a@ == b@),
{
    let x = chars_of(a);
    let y = chars_of(b);
    if x.len() != y.len() {
        return false;
    }
    let n = x.len();
    let mut i: usize = 0;
    while i < n
        invariant
            n == x@.len(),
            n == y@.len(),
            x@ == a@,
            y@ == b@,
            i <= n,
            x@.subrange(0, i as int) == y@.subrange(0, i as int),
        decreases n - i,
    {
        if x[i] != y[i] {
            return false;
        }
        assert(x@.subrange(0, i + 1) == x@.subrange(0, i as int).push(x@[i as int]));
        assert(y@.subrange(0, i + 1) == y@.subrange(0, i as int).push(y@[i as int]));
        i += 1;
    }
    assert(x@ == x@.subrange(0, n as int));
    assert(y@ == y@.subrange(0, n as int));
    true
}

/// `s` without its leading and trailing whitespace, as `str::trim` gives it.
pub open spec fn spec_trim(s: Seq<char>) -> Seq<char>
    decreases s.len(),
{
    if s.len() > 0 && char_is_whitespace(s[0]) {
        spec_trim(s.drop_first())
    } else if s.len() > 0 && char_is_whitespace(s.last()) {
        spec_trim(s.drop_last())
    } else {
        s
    }
}

/// A trimmed text is empty, or neither starts nor ends with whitespace.
pub proof fn lemma_trim_shape(s: Seq<char>)
    ensures
        spec_trim(s).len() == 0 || (!char_is_whitespace(spec_trim(s)[0]) && !char_is_whitespace(
            spec_trim(s).last(),
        )),
    decreases s.len(),
{
    if s.len() > 0 && char_is_whitespace(s[0]) {
        lemma_trim_shape(s.drop_first());
    } else if s.len() > 0 && char_is_whitespace(s.last()) {
        lemma_trim_shape(s.drop_last());
    }
}

/// A text that is empty, or neither starts nor ends with whitespace, is its own trim.
pub proof fn lemma_trim_fixed(s: Seq<char>)
    requires
        s.len() == 0 || (!char_is_whitespace(s[0]) && !char_is_whitespace(s.last())),
    ensures
        spec_trim(s) == s,
{
}

/// Trimming twice trims no more than trimming once.
pub proof fn law_trim_idempotent(s: Seq<char>)
    ensures
        spec_trim(spec_trim(s)) == spec_trim(s),
{
    lemma_trim_shape(s);
    lemma_trim_fixed(spec_trim(s));
}

/// Bounds `(start, end)` such that `runes[start..end]` is `runes` trimmed.
pub fn trim_bounds(runes: &[char]) -> (r: (usize, usize))
    ensures
        r.0 <= r.1 <= runes@.len(),
        runes@.subrange(r.0 as int, r.1 as int) == spec_trim(runes@),
{
    let n = runes.len();
    let mut start: usize = 0;
    assert(runes@.subrange(0, n as int) == runes@);
    while start < n && is_whitespace(runes[start])
        invariant
            start <= n == runes@.len(),
            spec_trim(runes@) == spec_trim(runes@.subrange(start as int, n as int)),
        decreases n - start,
    {
        assert(runes@.subrange(start + 1, n as int) == runes@.subrange(start as int, n as int).drop_first());
        start += 1;
    }
    let mut end: usize = n;
    while end > start && is_whitespace(runes[end - 1])
        invariant
            start <= end <= n == runes@.len(),
            spec_trim(runes@) == spec_trim(runes@.subrange(start as int, end as int)),
            start < end ==> !char_is_whitespace(runes@[start as int]),
        decreases end - start,
    {
        let ghost t = runes@.subrange(start as int, end as int);
        assert(t.drop_last() == runes@.subrange(start as int, end - 1));
        if end - 1 > start {
            assert(t.drop_last()[0] == runes@[start as int]);
        }
        end -= 1;
    }
    (start, end)
}

/// `s` trimmed of leading and trailing whitespace (`str::trim`).
pub fn trim(s: &str) -> (r: String)
    ensures
        r@ == spec_trim(s@),
{
    let runes = chars_of(s);
    let (start, end) = trim_bounds(runes.as_slice());
    text_of(runes.as_slice(), start, end)
}

} // verus!
