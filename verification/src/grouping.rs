//! Digit grouping of number literals for display: the integer digits in
//! groups of three from the right, the fraction digits in groups of three
//! from the left, sign and exponent left as they are.
use crate::chars::{chars_of, text_of};
use crate::syntax::{self, tokenize};
use vstd::string::StringExecFns;
use vstd::prelude::*;

verus! {

/// A piece of a grouped number: its text, and whether a gap goes before it.
#[derive(Debug)]
pub struct NumberSegment {
    pub text: String,
    pub pad_before: bool,
}

/// A segment as a mathematical value.
pub struct SegmentView {
    pub text: Seq<char>,
    pub pad_before: bool,
}

impl NumberSegment {
    pub open spec fn view(&self) -> SegmentView {
        SegmentView { text: self.text@, pad_before: self.pad_before }
    }
}

/// The views of a sequence of segments.
pub open spec fn segment_views(ss: Seq<NumberSegment>) -> Seq<SegmentView> {
    ss.map_values(|s: NumberSegment| s@)
}

/// The segment with the given text and gap.
pub open spec fn seg(text: Seq<char>, pad_before: bool) -> SegmentView {
    SegmentView { text, pad_before }
}

/// The first index at or after `i` holding `a` or `b`, or the length of `s`.
pub open spec fn find_either(s: Seq<char>, i: int, a: char, b: char) -> int
    decreases s.len() - i,
{
    if i < 0 || i >= s.len() {
        s.len() as int
    } else if s[i] == a || s[i] == b {
        i
    } else {
        find_either(s, i + 1, a, b)
    }
}

/// A number split before its first `e` or `E`: the mantissa, and the exponent
/// with its letter, if there is one.
pub open spec fn spec_split_exponent(n: Seq<char>) -> (Seq<char>, Option<Seq<char>>) {
    let k = find_either(n, 0, 'e', 'E');
    if k < n.len() {
        (n.take(k), Some(n.skip(k)))
    } else {
        (n, None)
    }
}

/// A text split after a leading `+` or `-`, if it has one.
pub open spec fn spec_split_leading_sign(t: Seq<char>) -> (Option<char>, Seq<char>) {
    if t.len() > 0 && (t[0] == '+' || t[0] == '-') {
        (Some(t[0]), t.skip(1))
    } else {
        (None, t)
    }
}

/// A text split at its first `.`: the part before, the part after, and
/// whether there is a `.` at all.
pub open spec fn spec_split_decimal_parts(t: Seq<char>) -> (Seq<char>, Seq<char>, bool) {
    let k = find_either(t, 0, '.', '.');
    if k < t.len() {
        (t.take(k), t.skip(k + 1), true)
    } else {
        (t, seq![], false)
    }
}

/// Groups of three from the left; the last one may be shorter.
pub open spec fn groups_from_left(s: Seq<char>) -> Seq<Seq<char>>
    decreases s.len(),
{
    if s.len() == 0 {
        seq![]
    } else if s.len() <= 3 {
        seq![s]
    } else {
        seq![s.take(3)] + groups_from_left(s.skip(3))
    }
}

/// Groups of three from the right; the first one may be shorter.
pub open spec fn groups_from_right(s: Seq<char>) -> Seq<Seq<char>>
    decreases s.len(),
{
    if s.len() == 0 {
        seq![]
    } else if s.len() <= 3 {
        seq![s]
    } else {
        groups_from_right(s.take(s.len() - 3)).push(s.skip(s.len() - 3))
    }
}

/// Segments for consecutive groups: a gap before each but the first, which
/// gets `first_pad`.
pub open spec fn padded(groups: Seq<Seq<char>>, first_pad: bool) -> Seq<SegmentView> {
    Seq::new(groups.len(), |k: int| seg(groups[k], if k == 0 { first_pad } else { true }))
}

/// The segments of a number, before the fallback for a number that gives none.
pub open spec fn raw_segments(n: Seq<char>) -> Seq<SegmentView> {
    let (mantissa, exponent) = spec_split_exponent(n);
    let (sign, unsigned) = spec_split_leading_sign(mantissa);
    let (int_part, frac_part, has_dot) = spec_split_decimal_parts(unsigned);
    (match sign {
        Some(c) => seq![seg(seq![c], false)],
        None => seq![],
    }) + padded(groups_from_right(int_part), false) + (if has_dot {
        seq![seg(seq!['.'], false)]
    } else {
        seq![]
    }) + padded(groups_from_left(frac_part), false) + (match exponent {
        Some(e) => seq![seg(e, false)],
        None => seq![],
    })
}

/// The segments of a number literal; a text that gives none (the empty one)
/// stands as one segment.
pub open spec fn spec_split_number_segments(n: Seq<char>) -> Seq<SegmentView> {
    let r = raw_segments(n);
    if r.len() == 0 {
        seq![seg(n, false)]
    } else {
        r
    }
}

/// `(len % 3)` digits first, or three when that is 0: the length of the
/// leftmost group of three counted from the right.
pub open spec fn leading_group_len(len: nat) -> int {
    if len % 3 == 0 {
        3
    } else {
        (len % 3) as int
    }
}

proof fn lemma_groups_from_left_append(t: Seq<char>, u: Seq<char>)
    requires
        t.len() % 3 == 0,
    ensures
        groups_from_left(t + u) == groups_from_left(t) + groups_from_left(u),
    decreases t.len(),
{
    if t.len() == 0 {
        assert(t + u =~= u);
        assert(groups_from_left(t) =~= seq![]);
        assert(groups_from_left(t) + groups_from_left(u) =~= groups_from_left(u));
    } else {
        assert(t.len() >= 3);
        let tu = t + u;
        assert(tu.take(3) =~= t.take(3));
        assert(tu.skip(3) =~= t.skip(3) + u);
        lemma_groups_from_left_append(t.skip(3), u);
        if t.len() == 3 {
            assert(t.skip(3) =~= seq![]);
            assert(t.take(3) =~= t);
            assert(groups_from_left(t) == seq![t]);
        }
        assert(groups_from_left(t) == seq![t.take(3)] + groups_from_left(t.skip(3)));
        if u.len() == 0 && t.len() == 3 {
            assert(tu =~= t);
        }
        assert(groups_from_left(tu) =~= groups_from_left(t) + groups_from_left(u));
    }
}

/// Groups of three counted from the right are the leftmost short group
/// followed by groups of three counted from the left.
proof fn lemma_groups_from_right_as_left(s: Seq<char>)
    requires
        s.len() > 0,
    ensures
        groups_from_right(s) == seq![s.take(leading_group_len(s.len()))] + groups_from_left(
            s.skip(leading_group_len(s.len())),
        ),
    decreases s.len(),
{
    let f = leading_group_len(s.len());
    if s.len() <= 3 {
        assert(s.take(f) =~= s);
        assert(s.skip(f) =~= seq![]);
        assert(groups_from_left(s.skip(f)) =~= seq![]);
        assert(seq![s.take(f)] + groups_from_left(s.skip(f)) =~= seq![s]);
    } else {
        let p = s.take(s.len() - 3);
        let last = s.skip(s.len() - 3);
        assert(leading_group_len(p.len()) == f);
        lemma_groups_from_right_as_left(p);
        assert(p.take(f) =~= s.take(f));
        let mid = p.skip(f);
        assert(mid.len() % 3 == 0);
        lemma_groups_from_left_append(mid, last);
        assert(mid + last =~= s.skip(f));
        assert(last.len() == 3);
        assert(groups_from_left(last) == seq![last]);
        assert(groups_from_right(s) =~= seq![s.take(f)] + groups_from_left(s.skip(f)));
    }
}

proof fn lemma_padded_cons(x: Seq<char>, rest: Seq<Seq<char>>, first_pad: bool)
    ensures
        padded(seq![x] + rest, first_pad) == seq![seg(x, first_pad)] + padded(rest, true),
{
    assert(padded(seq![x] + rest, first_pad) =~= seq![seg(x, first_pad)] + padded(rest, true));
}

/// The index of the first `e` or `E` in `runes[..end]`, or `end`.
fn split_exponent(runes: &[char], end: usize) -> (r: usize)
    requires
        end <= runes@.len(),
    ensures
        r == find_either(runes@.subrange(0, end as int), 0, 'e', 'E'),
{
    let ghost s = runes@.subrange(0, end as int);
    let mut i: usize = 0;
    while i < end
        invariant
            i <= end <= runes@.len(),
            s == runes@.subrange(0, end as int),
            find_either(s, 0, 'e', 'E') == find_either(s, i as int, 'e', 'E'),
        decreases end - i,
    {
        if runes[i] == 'e' || runes[i] == 'E' {
            return i;
        }
        i += 1;
    }
    i
}

/// The index of the first `.` in `runes[start..end]`, counted from `start`,
/// or `end - start`.
fn find_dot(runes: &[char], start: usize, end: usize) -> (r: usize)
    requires
        start <= end <= runes@.len(),
    ensures
        r == find_either(runes@.subrange(start as int, end as int), 0, '.', '.'),
{
    let ghost s = runes@.subrange(start as int, end as int);
    let mut i: usize = start;
    while i < end
        invariant
            start <= i <= end <= runes@.len(),
            s == runes@.subrange(start as int, end as int),
            find_either(s, 0, '.', '.') == find_either(s, i - start, '.', '.'),
        decreases end - i,
    {
        if runes[i] == '.' {
            return i - start;
        }
        i += 1;
    }
    i - start
}

/// Appends the segments of the integer digits `runes[start..end]`, grouped in
/// threes from the right.
fn push_grouped_integer_segments(segments: &mut Vec<NumberSegment>, runes: &[char], start: usize, end: usize)
    requires
        start <= end <= runes@.len(),
    ensures
        segment_views(final(segments)@) == segment_views(old(segments)@) + padded(
            groups_from_right(runes@.subrange(start as int, end as int)),
            false,
        ),
{
    let ghost s = runes@.subrange(start as int, end as int);
    let ghost before = segment_views(segments@);
    if start == end {
        assert(segment_views(segments@) =~= before + padded(groups_from_right(s), false));
        return;
    }
    let len = end - start;
    let first_group_len = if len % 3 == 0 {
        3
    } else {
        len % 3
    };
    proof {
        lemma_groups_from_right_as_left(s);
        lemma_padded_cons(s.take(first_group_len as int), groups_from_left(s.skip(first_group_len as int)), false);
    }
    let mut index: usize = 0;
    let mut first = true;
    while index < len
        invariant
            start <= end <= runes@.len(),
            len == end - start,
            s == runes@.subrange(start as int, end as int),
            first_group_len == leading_group_len(len as nat),
            index <= len,
            first ==> index == 0 && segment_views(segments@) == before,
            !first ==> (len - index) % 3 == 0,
            before + padded(groups_from_right(s), false) == segment_views(segments@) + if first {
                padded(groups_from_right(s), false)
            } else {
                padded(groups_from_left(s.skip(index as int)), true)
            },
        decreases len - index,
    {
        let group_len = if first {
            first_group_len
        } else {
            3
        };
        let ghost u = s.skip(index as int);
        let text = text_of(runes, start + index, start + index + group_len);
        assert(text@ =~= u.take(group_len as int));
        let ghost prev = segment_views(segments@);
        segments.push(NumberSegment { text, pad_before: !first });
        assert(segment_views(segments@) =~= prev + seq![seg(u.take(group_len as int), !first)]);
        proof {
            assert(u.skip(group_len as int) =~= s.skip(index + group_len));
            if first {
                assert(u =~= s);
                lemma_groups_from_right_as_left(s);
                lemma_padded_cons(s.take(first_group_len as int), groups_from_left(s.skip(first_group_len as int)), false);
            } else {
                if u.len() <= 3 {
                    assert(u.take(3) =~= u);
                    assert(u.skip(3) =~= seq![]);
                    assert(groups_from_left(u.skip(3)) =~= seq![]);
                }
                assert(groups_from_left(u) == seq![u.take(3)] + groups_from_left(u.skip(3)));
                lemma_padded_cons(u.take(3), groups_from_left(u.skip(3)), true);
            }
            assert((prev + seq![seg(u.take(group_len as int), !first)]) + padded(groups_from_left(s.skip(index + group_len)), true)
                =~= prev + (seq![seg(u.take(group_len as int), !first)] + padded(groups_from_left(s.skip(index + group_len)), true)));
        }
        first = false;
        index += group_len;
    }
    proof {
        assert(s.skip(len as int) =~= seq![]);
        assert(groups_from_left(s.skip(len as int)) =~= seq![]);
        assert(segment_views(segments@) + padded(groups_from_left(s.skip(index as int)), true) =~= segment_views(segments@));
    }
}

/// Appends the segments of the fraction digits `runes[start..end]`, grouped
/// in threes from the left.
fn push_grouped_fraction_segments(segments: &mut Vec<NumberSegment>, runes: &[char], start: usize, end: usize)
    requires
        start <= end <= runes@.len(),
    ensures
        segment_views(final(segments)@) == segment_views(old(segments)@) + padded(
            groups_from_left(runes@.subrange(start as int, end as int)),
            false,
        ),
{
    let ghost s = runes@.subrange(start as int, end as int);
    let ghost before = segment_views(segments@);
    if start == end {
        assert(segment_views(segments@) =~= before + padded(groups_from_left(s), false));
        return;
    }
    let len = end - start;
    let mut index: usize = 0;
    let mut first = true;
    assert(s.skip(0) =~= s);
    while index < len
        invariant
            start <= end <= runes@.len(),
            len == end - start,
            s == runes@.subrange(start as int, end as int),
            index <= len,
            first ==> index == 0,
            before + padded(groups_from_left(s), false) == segment_views(segments@) + padded(
                groups_from_left(s.skip(index as int)),
                !first,
            ),
        decreases len - index,
    {
        let stop = if len - index > 3 {
            index + 3
        } else {
            len
        };
        let ghost u = s.skip(index as int);
        let text = text_of(runes, start + index, start + stop);
        let ghost g = u.take(stop - index);
        assert(text@ =~= g);
        let ghost prev = segment_views(segments@);
        segments.push(NumberSegment { text, pad_before: !first });
        proof {
            if u.len() <= 3 {
                assert(g =~= u);
                assert(s.skip(stop as int) =~= seq![]);
                assert(groups_from_left(s.skip(stop as int)) =~= seq![]);
                assert(groups_from_left(u) == seq![g] + groups_from_left(s.skip(stop as int)));
            } else {
                assert(u.skip(3) =~= s.skip(stop as int));
            }
            lemma_padded_cons(g, groups_from_left(s.skip(stop as int)), !first);
            assert(segment_views(segments@) =~= prev + seq![seg(g, !first)]);
            assert((prev + seq![seg(g, !first)]) + padded(groups_from_left(s.skip(stop as int)), true)
                =~= prev + (seq![seg(g, !first)] + padded(groups_from_left(s.skip(stop as int)), true)));
        }
        first = false;
        index = stop;
    }
    proof {
        assert(s.skip(len as int) =~= seq![]);
        assert(groups_from_left(s.skip(len as int)) =~= seq![]);
        assert(segment_views(segments@) + padded(groups_from_left(s.skip(index as int)), !first) =~= segment_views(segments@));
    }
}


proof fn lemma_find_either_bounds(s: Seq<char>, i: int, a: char, b: char)
    requires
        0 <= i <= s.len(),
    ensures
        i <= find_either(s, i, a, b) <= s.len(),
        find_either(s, i, a, b) < s.len() ==> (s[find_either(s, i, a, b)] == a || s[find_either(s, i, a, b)] == b),
    decreases s.len() - i,
{
    if i < s.len() && !(s[i] == a || s[i] == b) {
        lemma_find_either_bounds(s, i + 1, a, b);
    }
}

/// 1 when `runes[..end]` starts with `+` or `-`, else 0.
fn split_leading_sign(runes: &[char], end: usize) -> (r: usize)
    requires
        end <= runes@.len(),
    ensures
        r == if end > 0 && (runes@[0] == '+' || runes@[0] == '-') {
            1usize
        } else {
            0usize
        },
{
    if end > 0 && (runes[0] == '+' || runes[0] == '-') {
        1
    } else {
        0
    }
}

/// Splits a number literal into segments for display: the sign, the integer
/// digits in threes from the right, the `.`, the fraction digits in threes
/// from the left, and the exponent; a gap goes before every digit group but
/// the first of its part.
pub fn split_number_segments(number: &str) -> (r: Vec<NumberSegment>)
    ensures
        segment_views(r@) == spec_split_number_segments(number@),
{
    let runes = chars_of(number);
    let ghost s = runes@;
    let n = runes.len();
    let exp_start = split_exponent(runes.as_slice(), n);
    proof {
        assert(s.subrange(0, n as int) =~= s);
        lemma_find_either_bounds(s, 0, 'e', 'E');
    }
    let ghost mantissa = spec_split_exponent(s).0;
    let ghost exponent = spec_split_exponent(s).1;
    assert(mantissa =~= s.subrange(0, exp_start as int));
    let sign_end = split_leading_sign(runes.as_slice(), exp_start);
    let ghost sign = spec_split_leading_sign(mantissa).0;
    let ghost unsigned = spec_split_leading_sign(mantissa).1;
    assert(unsigned =~= s.subrange(sign_end as int, exp_start as int));
    let dot = find_dot(runes.as_slice(), sign_end, exp_start);
    proof {
        lemma_find_either_bounds(unsigned, 0, '.', '.');
    }
    let int_end = sign_end + dot;
    let has_dot = int_end < exp_start;
    let ghost int_part = spec_split_decimal_parts(unsigned).0;
    let ghost frac_part = spec_split_decimal_parts(unsigned).1;
    assert(int_part =~= s.subrange(sign_end as int, int_end as int));
    let frac_start = if has_dot {
        int_end + 1
    } else {
        exp_start
    };
    assert(frac_part =~= s.subrange(frac_start as int, exp_start as int));
    let mut segments: Vec<NumberSegment> = Vec::new();
    if sign_end == 1 {
        let text = text_of(runes.as_slice(), 0, 1);
        assert(text@ =~= seq![s[0]]);
        segments.push(NumberSegment { text, pad_before: false });
    }
    let ghost sign_part = match sign {
        Some(c) => seq![seg(seq![c], false)],
        None => Seq::<SegmentView>::empty(),
    };
    assert(segment_views(segments@) =~= sign_part);
    push_grouped_integer_segments(&mut segments, runes.as_slice(), sign_end, int_end);
    let ghost dot_part = if spec_split_decimal_parts(unsigned).2 {
        seq![seg(seq!['.'], false)]
    } else {
        Seq::<SegmentView>::empty()
    };
    let ghost mid = segment_views(segments@);
    if has_dot {
        let text = text_of(runes.as_slice(), int_end, int_end + 1);
        assert(unsigned[dot as int] == '.');
        assert(text@ =~= seq!['.']);
        segments.push(NumberSegment { text, pad_before: false });
    }
    assert(segment_views(segments@) =~= mid + dot_part);
    push_grouped_fraction_segments(&mut segments, runes.as_slice(), frac_start, exp_start);
    let ghost exp_part = match exponent {
        Some(e) => seq![seg(e, false)],
        None => Seq::<SegmentView>::empty(),
    };
    let ghost mid2 = segment_views(segments@);
    if exp_start < n {
        let text = text_of(runes.as_slice(), exp_start, n);
        assert(text@ =~= s.skip(exp_start as int));
        segments.push(NumberSegment { text, pad_before: false });
    }
    assert(segment_views(segments@) =~= mid2 + exp_part);
    assert(segment_views(segments@) =~= raw_segments(s));
    if segments.len() == 0 {
        segments.push(NumberSegment { text: String::from_str(number), pad_before: false });
        assert(segment_views(segments@) =~= seq![seg(s, false)]);
    }
    segments
}


/// The separator that the input line shows between digit groups (a thin space).
pub const INPUT_GROUP_SEPARATOR: char = '\u{2009}';

/// The texts of the segments put together, with `sep` where a gap goes.
pub open spec fn joined(segs: Seq<SegmentView>, sep: char) -> Seq<char>
    decreases segs.len(),
{
    if segs.len() == 0 {
        seq![]
    } else {
        joined(segs.drop_last(), sep) + (if segs.last().pad_before {
            seq![sep]
        } else {
            seq![]
        }) + segs.last().text
    }
}

/// A number literal with `sep` between its digit groups.
pub open spec fn spec_join_number(n: Seq<char>, sep: char) -> Seq<char> {
    joined(spec_split_number_segments(n), sep)
}

/// Writes a number literal with `separator` between its digit groups.
pub fn join_number_segments_with_separator(number: &str, separator: char) -> (r: String)
    ensures
        r@ == spec_join_number(number@, separator),
{
    let segments = split_number_segments(number);
    let ghost segs = segment_views(segments@);
    let mut out: Vec<char> = Vec::new();
    let mut k: usize = 0;
    while k < segments.len()
        invariant
            k <= segments@.len(),
            segs == segment_views(segments@),
            out@ == joined(segs.take(k as int), separator),
        decreases segments@.len() - k,
    {
        assert(segs.take(k + 1).drop_last() =~= segs.take(k as int));
        if segments[k].pad_before {
            out.push(separator);
        }
        let mut text = chars_of(segments[k].text.as_str());
        out.append(&mut text);
        k += 1;
    }
    assert(segs.take(k as int) =~= segs);
    text_of(out.as_slice(), 0, out.len())
}

/// What a piece of the input line shows: a number with its digit groups
/// apart, anything else as it is.
pub open spec fn shown_piece(p: syntax::TokenView) -> Seq<char> {
    if p.kind == syntax::TokenKind::Number {
        spec_join_number(p.text, INPUT_GROUP_SEPARATOR)
    } else {
        p.text
    }
}

/// What the pieces show, put together.
pub open spec fn shown_pieces(ps: Seq<syntax::TokenView>) -> Seq<char>
    decreases ps.len(),
{
    if ps.len() == 0 {
        seq![]
    } else {
        shown_pieces(ps.drop_last()) + shown_piece(ps.last())
    }
}

/// An input line as the input box shows it: every number with thin spaces
/// between its digit groups.
pub open spec fn spec_format_expression_for_input(s: Seq<char>) -> Seq<char> {
    shown_pieces(syntax::spec_tokenize(s))
}

/// Formats an input line for the input box, spacing the digit groups of its numbers.
pub fn format_expression_for_input(expr: &str) -> (r: String)
    ensures
        r@ == spec_format_expression_for_input(expr@),
{
    let tokens = tokenize(expr);
    let ghost ps = syntax::token_views(tokens@);
    let mut out: Vec<char> = Vec::new();
    let mut k: usize = 0;
    while k < tokens.len()
        invariant
            k <= tokens@.len(),
            ps == syntax::token_views(tokens@),
            ps == syntax::spec_tokenize(expr@),
            out@ == shown_pieces(ps.take(k as int)),
        decreases tokens@.len() - k,
    {
        assert(ps.take(k + 1).drop_last() =~= ps.take(k as int));
        let token = &tokens[k];
        let mut text = if token.kind == syntax::TokenKind::Number {
            let joined = join_number_segments_with_separator(token.text.as_str(), INPUT_GROUP_SEPARATOR);
            chars_of(joined.as_str())
        } else {
            chars_of(token.text.as_str())
        };
        out.append(&mut text);
        k += 1;
    }
    assert(ps.take(k as int) =~= ps);
    text_of(out.as_slice(), 0, out.len())
}

/// `s` without any `c`.
pub open spec fn without(s: Seq<char>, c: char) -> Seq<char>
    decreases s.len(),
{
    if s.len() == 0 {
        seq![]
    } else {
        without(s.drop_last(), c) + if s.last() == c {
            seq![]
        } else {
            seq![s.last()]
        }
    }
}

/// Removes the group separators that the input box shows.
pub fn strip_group_separators(text: &str) -> (r: String)
    ensures
        r@ == without(text@, INPUT_GROUP_SEPARATOR),
{
    let runes = chars_of(text);
    let mut out: Vec<char> = Vec::new();
    let mut i: usize = 0;
    while i < runes.len()
        invariant
            i <= runes@.len(),
            runes@ == text@,
            out@ == without(runes@.take(i as int), INPUT_GROUP_SEPARATOR),
        decreases runes@.len() - i,
    {
        assert(runes@.take(i + 1).drop_last() =~= runes@.take(i as int));
        if runes[i] != INPUT_GROUP_SEPARATOR {
            out.push(runes[i]);
        }
        i += 1;
        assert(out@ =~= without(runes@.take(i as int), INPUT_GROUP_SEPARATOR));
    }
    assert(runes@.take(i as int) =~= runes@);
    text_of(out.as_slice(), 0, out.len())
}

/// How many characters other than separators the first `n` characters of
/// the shown line hold: the cursor position in the line without separators.
pub open spec fn spec_canonical_cursor(display: Seq<char>, n: int) -> int {
    without(display.take(if n < display.len() { n } else { display.len() as int }), INPUT_GROUP_SEPARATOR).len() as int
}

/// The first index from `ix` on whose prefix of the shown line holds at least
/// `c` characters other than separators; the line's length when none does.
pub open spec fn first_reaching(display: Seq<char>, c: int, ix: int) -> int
    decreases display.len() - ix,
{
    if ix < 0 || ix >= display.len() {
        display.len() as int
    } else if spec_canonical_cursor(display, ix) >= c {
        ix
    } else {
        first_reaching(display, c, ix + 1)
    }
}

/// The cursor position in the shown line for a position in the line without
/// separators: the first position with that many characters before it.
pub open spec fn spec_display_cursor(display: Seq<char>, c: int) -> int {
    first_reaching(display, c, 0)
}

/// The cursor position in the line without separators for a cursor at
/// `display_cursor` in the shown line.
pub fn canonical_cursor_from_display_cursor(display: &str, display_cursor: usize) -> (r: usize)
    ensures
        r == spec_canonical_cursor(display@, display_cursor as int),
{
    let runes = chars_of(display);
    let stop = if display_cursor < runes.len() {
        display_cursor
    } else {
        runes.len()
    };
    let mut count: usize = 0;
    let mut i: usize = 0;
    while i < stop
        invariant
            i <= stop <= runes@.len(),
            runes@ == display@,
            count == without(runes@.take(i as int), INPUT_GROUP_SEPARATOR).len(),
            count <= i,
        decreases stop - i,
    {
        assert(runes@.take(i + 1).drop_last() =~= runes@.take(i as int));
        if runes[i] != INPUT_GROUP_SEPARATOR {
            count += 1;
        }
        i += 1;
    }
    count
}

/// The cursor position in the shown line for a cursor at `canonical_cursor`
/// in the line without separators.
pub fn display_cursor_from_canonical_cursor(display: &str, canonical_cursor: usize) -> (r: usize)
    ensures
        r == spec_display_cursor(display@, canonical_cursor as int),
{
    let runes = chars_of(display);
    let mut canonical_count: usize = 0;
    let mut display_ix: usize = 0;
    assert(runes@.take(0) =~= seq![]);
    while display_ix < runes.len()
        invariant
            display_ix <= runes@.len(),
            runes@ == display@,
            canonical_count == spec_canonical_cursor(runes@, display_ix as int),
            canonical_count <= display_ix,
            spec_display_cursor(runes@, canonical_cursor as int) == first_reaching(
                runes@,
                canonical_cursor as int,
                display_ix as int,
            ),
        decreases runes@.len() - display_ix,
    {
        if canonical_count >= canonical_cursor {
            return display_ix;
        }
        assert(runes@.take(display_ix + 1).drop_last() =~= runes@.take(display_ix as int));
        if runes[display_ix] != INPUT_GROUP_SEPARATOR {
            canonical_count += 1;
        }
        display_ix += 1;
    }
    runes.len()
}


/// The groups put together, in order.
pub open spec fn flat(gs: Seq<Seq<char>>) -> Seq<char>
    decreases gs.len(),
{
    if gs.len() == 0 {
        seq![]
    } else {
        flat(gs.drop_last()) + gs.last()
    }
}

/// The texts of the segments.
pub open spec fn segment_texts(segs: Seq<SegmentView>) -> Seq<Seq<char>> {
    Seq::new(segs.len(), |k: int| segs[k].text)
}

/// `s` holds no `c`.
pub open spec fn lacks(s: Seq<char>, c: char) -> bool {
    forall|k: int| 0 <= k < s.len() ==> s[k] != c
}

proof fn lemma_flat_one(x: Seq<char>)
    ensures
        flat(seq![x]) == x,
{
    assert(seq![x].drop_last() =~= Seq::<Seq<char>>::empty());
    assert(flat(Seq::<Seq<char>>::empty()) == Seq::<char>::empty());
    assert(Seq::<char>::empty() + x =~= x);
}

proof fn lemma_flat_append(a: Seq<Seq<char>>, b: Seq<Seq<char>>)
    ensures
        flat(a + b) == flat(a) + flat(b),
    decreases b.len(),
{
    if b.len() == 0 {
        assert(a + b =~= a);
        assert(flat(b) == Seq::<char>::empty());
        assert(flat(a) + flat(b) =~= flat(a));
    } else {
        lemma_flat_append(a, b.drop_last());
        assert((a + b).drop_last() =~= a + b.drop_last());
        assert((a + b).last() == b.last());
        assert(flat(a) + flat(b.drop_last()) + b.last() =~= flat(a) + (flat(b.drop_last()) + b.last()));
    }
}

proof fn lemma_flat_groups_from_right(x: Seq<char>)
    ensures
        flat(groups_from_right(x)) == x,
    decreases x.len(),
{
    if x.len() == 0 {
        assert(flat(groups_from_right(x)) == Seq::<char>::empty());
        assert(x =~= Seq::<char>::empty());
    } else if x.len() <= 3 {
        lemma_flat_one(x);
    } else {
        let p = x.take(x.len() - 3);
        lemma_flat_groups_from_right(p);
        assert(groups_from_right(x).drop_last() =~= groups_from_right(p));
        assert(p + x.skip(x.len() - 3) =~= x);
    }
}

proof fn lemma_flat_groups_from_left(x: Seq<char>)
    ensures
        flat(groups_from_left(x)) == x,
    decreases x.len(),
{
    if x.len() == 0 {
        assert(flat(groups_from_left(x)) == Seq::<char>::empty());
        assert(x =~= Seq::<char>::empty());
    } else if x.len() <= 3 {
        lemma_flat_one(x);
    } else {
        lemma_flat_groups_from_left(x.skip(3));
        lemma_flat_append(seq![x.take(3)], groups_from_left(x.skip(3)));
        lemma_flat_one(x.take(3));
        assert(x.take(3) + x.skip(3) =~= x);
    }
}

proof fn lemma_flat_padded(g: Seq<Seq<char>>, p: bool)
    ensures
        segment_texts(padded(g, p)) == g,
{
    assert(segment_texts(padded(g, p)) =~= g);
}

proof fn lemma_segment_texts_append(a: Seq<SegmentView>, b: Seq<SegmentView>)
    ensures
        segment_texts(a + b) == segment_texts(a) + segment_texts(b),
{
    assert(segment_texts(a + b) =~= segment_texts(a) + segment_texts(b));
}

proof fn lemma_flat_five(a: Seq<SegmentView>, b: Seq<SegmentView>, c: Seq<SegmentView>, d: Seq<SegmentView>, e: Seq<SegmentView>)
    ensures
        flat(segment_texts(a + b + c + d + e)) == flat(segment_texts(a)) + flat(segment_texts(b)) + flat(
            segment_texts(c),
        ) + flat(segment_texts(d)) + flat(segment_texts(e)),
{
    lemma_segment_texts_append(a + b + c + d, e);
    lemma_segment_texts_append(a + b + c, d);
    lemma_segment_texts_append(a + b, c);
    lemma_segment_texts_append(a, b);
    let (ta, tb, tc, td, te) = (segment_texts(a), segment_texts(b), segment_texts(c), segment_texts(d), segment_texts(e));
    lemma_flat_append(ta + tb + tc + td, te);
    lemma_flat_append(ta + tb + tc, td);
    lemma_flat_append(ta + tb, tc);
    lemma_flat_append(ta, tb);
}

/// The text of an optional single segment.
proof fn lemma_flat_optional(x: Option<Seq<char>>)
    ensures
        flat(segment_texts(match x {
            Some(t) => seq![seg(t, false)],
            None => Seq::<SegmentView>::empty(),
        })) == match x {
            Some(t) => t,
            None => Seq::<char>::empty(),
        },
{
    match x {
        Some(t) => {
            assert(segment_texts(seq![seg(t, false)]) =~= seq![t]);
            lemma_flat_one(t);
        },
        None => {
            assert(segment_texts(Seq::<SegmentView>::empty()) =~= Seq::<Seq<char>>::empty());
        },
    }
}

/// The parts that a number is split into make the number again.
proof fn lemma_split_parts(n: Seq<char>)
    ensures
        ({
            let (mantissa, exponent) = spec_split_exponent(n);
            let (sign, unsigned) = spec_split_leading_sign(mantissa);
            let (int_part, frac_part, has_dot) = spec_split_decimal_parts(unsigned);
            (match sign {
                Some(c) => seq![c],
                None => Seq::<char>::empty(),
            }) + int_part + (if has_dot {
                seq!['.']
            } else {
                Seq::<char>::empty()
            }) + frac_part + (match exponent {
                Some(x) => x,
                None => Seq::<char>::empty(),
            }) == n
        }),
{
    let (mantissa, exponent) = spec_split_exponent(n);
    let (sign, unsigned) = spec_split_leading_sign(mantissa);
    lemma_find_either_bounds(n, 0, 'e', 'E');
    lemma_find_either_bounds(unsigned, 0, '.', '.');
    let (int_part, frac_part, has_dot) = spec_split_decimal_parts(unsigned);
    let fa: Seq<char> = match sign {
        Some(c) => seq![c],
        None => Seq::<char>::empty(),
    };
    let fd: Seq<char> = if has_dot {
        seq!['.']
    } else {
        Seq::<char>::empty()
    };
    let fe: Seq<char> = match exponent {
        Some(x) => x,
        None => Seq::<char>::empty(),
    };
    assert(mantissa + fe =~= n);
    assert(fa + unsigned =~= mantissa);
    assert(int_part + fd + frac_part =~= unsigned);
    assert(fa + int_part + fd + frac_part + fe =~= n);
}

/// The texts of a number's segments, put together, give the number back.
pub proof fn law_segments_cover_number(n: Seq<char>)
    ensures
        flat(segment_texts(spec_split_number_segments(n))) == n,
{
    let (mantissa, exponent) = spec_split_exponent(n);
    let (sign, unsigned) = spec_split_leading_sign(mantissa);
    let (int_part, frac_part, has_dot) = spec_split_decimal_parts(unsigned);
    let sign_text: Option<Seq<char>> = match sign {
        Some(c) => Some(seq![c]),
        None => None,
    };
    let dot_text: Option<Seq<char>> = if has_dot {
        Some(seq!['.'])
    } else {
        None
    };
    let a = match sign_text {
        Some(t) => seq![seg(t, false)],
        None => Seq::<SegmentView>::empty(),
    };
    let p1 = padded(groups_from_right(int_part), false);
    let d = match dot_text {
        Some(t) => seq![seg(t, false)],
        None => Seq::<SegmentView>::empty(),
    };
    let p2 = padded(groups_from_left(frac_part), false);
    let e = match exponent {
        Some(x) => seq![seg(x, false)],
        None => Seq::<SegmentView>::empty(),
    };
    let r = raw_segments(n);
    assert(r =~= a + p1 + d + p2 + e);
    if r.len() == 0 {
        assert(segment_texts(seq![seg(n, false)]) =~= seq![n]);
        lemma_flat_one(n);
    } else {
        lemma_flat_five(a, p1, d, p2, e);
        lemma_flat_optional(sign_text);
        lemma_flat_optional(dot_text);
        lemma_flat_optional(exponent);
        lemma_flat_padded(groups_from_right(int_part), false);
        lemma_flat_padded(groups_from_left(frac_part), false);
        lemma_flat_groups_from_right(int_part);
        lemma_flat_groups_from_left(frac_part);
        lemma_split_parts(n);
    }
}

proof fn lemma_without_append(a: Seq<char>, b: Seq<char>, c: char)
    ensures
        without(a + b, c) == without(a, c) + without(b, c),
    decreases b.len(),
{
    if b.len() == 0 {
        assert(a + b =~= a);
        assert(without(b, c) == Seq::<char>::empty());
        assert(without(a, c) + without(b, c) =~= without(a, c));
    } else {
        lemma_without_append(a, b.drop_last(), c);
        assert((a + b).drop_last() =~= a + b.drop_last());
        assert((a + b).last() == b.last());
        let tail: Seq<char> = if b.last() == c {
            seq![]
        } else {
            seq![b.last()]
        };
        assert(without(a, c) + without(b.drop_last(), c) + tail =~= without(a, c) + (without(
            b.drop_last(),
            c,
        ) + tail));
    }
}

proof fn lemma_without_absent(s: Seq<char>, c: char)
    requires
        lacks(s, c),
    ensures
        without(s, c) == s,
    decreases s.len(),
{
    if s.len() == 0 {
        assert(s =~= Seq::<char>::empty());
    } else {
        lemma_without_absent(s.drop_last(), c);
        assert(s.drop_last().push(s.last()) =~= s);
        assert(s.drop_last() + seq![s.last()] =~= s);
    }
}

proof fn lemma_without_joined(segs: Seq<SegmentView>, sep: char)
    ensures
        without(joined(segs, sep), sep) == without(flat(segment_texts(segs)), sep),
    decreases segs.len(),
{
    if segs.len() == 0 {
        assert(segment_texts(segs) =~= Seq::<Seq<char>>::empty());
    } else {
        let init = segs.drop_last();
        let last = segs.last();
        lemma_without_joined(init, sep);
        let pad: Seq<char> = if last.pad_before {
            seq![sep]
        } else {
            seq![]
        };
        lemma_without_append(joined(init, sep) + pad, last.text, sep);
        lemma_without_append(joined(init, sep), pad, sep);
        assert(without(pad, sep) =~= Seq::<char>::empty()) by {
            assert(without(Seq::<char>::empty(), sep) == Seq::<char>::empty());
            if last.pad_before {
                assert(pad.drop_last() =~= Seq::<char>::empty());
                assert(pad.last() == sep);
            } else {
                assert(pad =~= Seq::<char>::empty());
            }
        }
        assert(segment_texts(segs).drop_last() =~= segment_texts(init));
        assert(segment_texts(segs).last() == last.text);
        lemma_without_append(flat(segment_texts(init)), last.text, sep);
        assert(without(joined(init, sep), sep) + Seq::<char>::empty() =~= without(joined(init, sep), sep));
    }
}

/// Grouping only adds separators: taking them out of a grouped number that
/// held none gives the number back.
pub proof fn law_grouping_only_adds_separators(n: Seq<char>, sep: char)
    requires
        lacks(n, sep),
    ensures
        without(spec_join_number(n, sep), sep) == n,
{
    lemma_without_joined(spec_split_number_segments(n), sep);
    law_segments_cover_number(n);
    lemma_without_absent(n, sep);
}

proof fn lemma_lacks_parts(ps: Seq<syntax::TokenView>, c: char)
    requires
        lacks(syntax::texts_of(ps), c),
    ensures
        forall|k: int| 0 <= k < ps.len() ==> lacks(#[trigger] ps[k].text, c),
    decreases ps.len(),
{
    if ps.len() > 0 {
        let init = ps.drop_last();
        let t = syntax::texts_of(ps);
        let ti = syntax::texts_of(init);
        assert forall|k: int| 0 <= k < ti.len() implies ti[k] != c by {
            assert(t[k] == ti[k]);
        }
        lemma_lacks_parts(init, c);
        assert forall|k: int| 0 <= k < ps.last().text.len() implies ps.last().text[k] != c by {
            assert(t[ti.len() + k] == ps.last().text[k]);
        }
        assert forall|k: int| 0 <= k < ps.len() implies lacks(#[trigger] ps[k].text, c) by {
            if k < ps.len() - 1 {
                assert(ps[k] == init[k]);
            }
        }
    }
}

proof fn lemma_shown_vs_texts(ps: Seq<syntax::TokenView>)
    requires
        forall|k: int| 0 <= k < ps.len() ==> lacks(#[trigger] ps[k].text, INPUT_GROUP_SEPARATOR),
    ensures
        without(shown_pieces(ps), INPUT_GROUP_SEPARATOR) == syntax::texts_of(ps),
    decreases ps.len(),
{
    if ps.len() > 0 {
        let init = ps.drop_last();
        let last = ps.last();
        assert forall|k: int| 0 <= k < init.len() implies lacks(#[trigger] init[k].text, INPUT_GROUP_SEPARATOR) by {
            assert(init[k] == ps[k]);
        }
        lemma_shown_vs_texts(init);
        lemma_without_append(shown_pieces(init), shown_piece(last), INPUT_GROUP_SEPARATOR);
        assert(lacks(ps[ps.len() - 1].text, INPUT_GROUP_SEPARATOR));
        if last.kind == syntax::TokenKind::Number {
            law_grouping_only_adds_separators(last.text, INPUT_GROUP_SEPARATOR);
        } else {
            lemma_without_absent(last.text, INPUT_GROUP_SEPARATOR);
        }
    }
}

/// Taking the separators out of a line formatted for the input box gives the
/// line back, when the line held none.
pub proof fn law_format_then_strip(s: Seq<char>)
    requires
        lacks(s, INPUT_GROUP_SEPARATOR),
    ensures
        without(spec_format_expression_for_input(s), INPUT_GROUP_SEPARATOR) == s,
{
    syntax::law_pieces_cover_line(s);
    lemma_lacks_parts(syntax::spec_tokenize(s), INPUT_GROUP_SEPARATOR);
    lemma_shown_vs_texts(syntax::spec_tokenize(s));
}

proof fn lemma_canonical_step(d: Seq<char>, j: int)
    requires
        0 <= j < d.len(),
    ensures
        spec_canonical_cursor(d, j) <= spec_canonical_cursor(d, j + 1) <= spec_canonical_cursor(d, j) + 1,
{
    assert(d.take(j + 1).drop_last() =~= d.take(j));
}

proof fn lemma_first_reaching(d: Seq<char>, c: int, ix: int)
    requires
        0 <= ix <= d.len(),
        0 <= c <= spec_canonical_cursor(d, d.len() as int),
        ix > 0 ==> spec_canonical_cursor(d, ix - 1) < c,
    ensures
        spec_canonical_cursor(d, first_reaching(d, c, ix)) == c,
    decreases d.len() - ix,
{
    if ix == 0 {
        assert(d.take(0) =~= Seq::<char>::empty());
    }
    if ix == d.len() {
        if ix > 0 {
            lemma_canonical_step(d, ix - 1);
        }
    } else if spec_canonical_cursor(d, ix) >= c {
        if ix > 0 {
            lemma_canonical_step(d, ix - 1);
        }
    } else {
        lemma_first_reaching(d, c, ix + 1);
    }
}

/// Moving the cursor from the line without separators to the shown line and
/// back leaves it where it was.
pub proof fn law_cursor_round_trip(display: Seq<char>, c: int)
    requires
        0 <= c <= spec_canonical_cursor(display, display.len() as int),
    ensures
        spec_canonical_cursor(display, spec_display_cursor(display, c)) == c,
{
    lemma_first_reaching(display, c, 0);
}


/// `s` without its trailing `0`s.
pub open spec fn without_trailing_zeros(s: Seq<char>) -> Seq<char>
    decreases s.len(),
{
    if s.len() > 0 && s.last() == '0' {
        without_trailing_zeros(s.drop_last())
    } else {
        s
    }
}

/// A decimal text with its fraction's trailing `0`s dropped, and the `.` too
/// when nothing is left after it; a text without `.` is left as it is.
pub open spec fn spec_trim_fraction_zeros(s: Seq<char>) -> Seq<char> {
    if s.contains('.') {
        let t = without_trailing_zeros(s);
        if t.len() > 0 && t.last() == '.' {
            t.drop_last()
        } else {
            t
        }
    } else {
        s
    }
}

/// Drops the trailing `0`s of a decimal text's fraction, and the `.` when
/// nothing is left after it: `"2.500"` becomes `"2.5"`, `"3.000"` becomes `"3"`.
pub fn trim_fraction_zeros(text: &str) -> (r: String)
    ensures
        r@ == spec_trim_fraction_zeros(text@),
{
    let mut out = chars_of(text);
    let mut has_dot = false;
    let mut i: usize = 0;
    while i < out.len()
        invariant
            out@ == text@,
            i <= out@.len(),
            has_dot == out@.take(i as int).contains('.'),
        decreases out@.len() - i,
    {
        if out[i] == '.' {
            has_dot = true;
            assert(out@.take(i + 1)[i as int] == '.');
        } else {
            assert forall|k: int| 0 <= k < i + 1 && out@.take(i + 1)[k] == '.' implies out@.take(i as int)[k] == '.' by {}
        }
        i += 1;
    }
    assert(out@.take(i as int) =~= out@);
    if has_dot {
        while out.len() > 0 && out[out.len() - 1] == '0'
            invariant
                without_trailing_zeros(text@) == without_trailing_zeros(out@),
            decreases out@.len(),
        {
            out.pop();
        }
        if out.len() > 0 && out[out.len() - 1] == '.' {
            out.pop();
        }
    }
    text_of(out.as_slice(), 0, out.len())
}


proof fn lemma_without_trailing_zeros(s: Seq<char>)
    ensures
        without_trailing_zeros(s).len() <= s.len(),
        without_trailing_zeros(s) == s.take(without_trailing_zeros(s).len() as int),
        forall|j: int| without_trailing_zeros(s).len() <= j < s.len() ==> s[j] == '0',
        without_trailing_zeros(s).len() > 0 ==> without_trailing_zeros(s).last() != '0',
    decreases s.len(),
{
    if s.len() > 0 && s.last() == '0' {
        lemma_without_trailing_zeros(s.drop_last());
        let t = without_trailing_zeros(s.drop_last());
        assert(s.drop_last().take(t.len() as int) =~= s.take(t.len() as int));
        assert forall|j: int| t.len() <= j < s.len() implies s[j] == '0' by {
            if j < s.len() - 1 {
                assert(s.drop_last()[j] == s[j]);
            }
        }
    } else {
        assert(s.take(s.len() as int) =~= s);
    }
}

/// Only the fraction is trimmed, and all of its trailing zeros are:
/// - the result is the text cut short, and a text without `.` is kept whole;
/// - what is cut off is zeros, or a `.` followed by zeros, so the value is
///   unchanged and no digit before the `.` is lost;
/// - unless the `.` itself was cut off, the result ends neither in `0` nor in `.`.
pub proof fn law_trim_fraction_zeros(s: Seq<char>)
    ensures
        spec_trim_fraction_zeros(s).len() <= s.len(),
        spec_trim_fraction_zeros(s) == s.take(spec_trim_fraction_zeros(s).len() as int),
        !s.contains('.') ==> spec_trim_fraction_zeros(s) == s,
        s.contains('.') ==> forall|j: int|
            spec_trim_fraction_zeros(s).len() < j < s.len() ==> s[j] == '0',
        s.contains('.') && spec_trim_fraction_zeros(s).len() < s.len() ==> (s[spec_trim_fraction_zeros(
            s,
        ).len() as int] == '0' || s[spec_trim_fraction_zeros(s).len() as int] == '.'),
        s.contains('.') && (spec_trim_fraction_zeros(s).len() == s.len() || s[spec_trim_fraction_zeros(
            s,
        ).len() as int] == '0') ==> spec_trim_fraction_zeros(s).len() == 0 || (spec_trim_fraction_zeros(
            s,
        ).last() != '0' && spec_trim_fraction_zeros(s).last() != '.'),
{
    lemma_without_trailing_zeros(s);
    let t = without_trailing_zeros(s);
    let r = spec_trim_fraction_zeros(s);
    if s.contains('.') {
        if t.len() > 0 && t.last() == '.' {
            assert(r == t.drop_last());
            assert(s[r.len() as int] == t[r.len() as int]);
            assert(r =~= s.take(r.len() as int));
        } else {
            assert(r == t);
            if r.len() > 0 {
                assert(r.last() == s[r.len() - 1]);
            }
        }
    }
}

} // verus!
