//! Trimming, searching and replacing.
use crate::text::{chars_of, same};
use vstd::prelude::*;

verus! {

/// Whether `c` has the Unicode property White_Space.
pub open spec fn whitespace(c: char) -> bool {
    let n = c as u32;
    ||| 0x09 <= n <= 0x0d
    ||| n == 0x20
    ||| n == 0x85
    ||| n == 0xa0
    ||| n == 0x1680
    ||| 0x2000 <= n <= 0x200a
    ||| n == 0x2028
    ||| n == 0x2029
    ||| n == 0x202f
    ||| n == 0x205f
    ||| n == 0x3000
}

/// Whether `c` has the Unicode property White_Space.
pub fn is_whitespace(c: char) -> (r: bool)
    ensures
        r == whitespace(c),
{
    let n: u32 = c as u32;
    (0x09 <= n && n <= 0x0d) || n == 0x20 || n == 0x85 || n == 0xa0 || n == 0x1680 || (0x2000 <= n
        && n <= 0x200a) || n == 0x2028 || n == 0x2029 || n == 0x202f || n == 0x205f || n == 0x3000
}

/// The first position from `from` on whose character is not white space.
pub open spec fn skip_space(s: Seq<char>, from: int) -> int
    decreases s.len() - from,
{
    if 0 <= from < s.len() && whitespace(s[from]) {
        skip_space(s, from + 1)
    } else {
        from
    }
}

/// The end of `s.take(to)` without the white space at its end.
pub open spec fn skip_space_back(s: Seq<char>, to: int) -> int
    decreases to,
{
    if 0 < to <= s.len() && whitespace(s[to - 1]) {
        skip_space_back(s, to - 1)
    } else {
        to
    }
}

/// `s` without the white space at its start.
pub open spec fn trim_start(s: Seq<char>) -> Seq<char> {
    s.skip(skip_space(s, 0))
}

/// `s` without the white space at its two ends.
pub open spec fn trim(s: Seq<char>) -> Seq<char> {
    let from = skip_space(s, 0);
    let to = skip_space_back(s, s.len() as int);
    if from < to {
        s.subrange(from, to)
    } else {
        Seq::empty()
    }
}

proof fn lemma_skip_space(s: Seq<char>, from: int)
    requires
        0 <= from <= s.len(),
    ensures
        from <= skip_space(s, from) <= s.len(),
    decreases s.len() - from,
{
    if from < s.len() && whitespace(s[from]) {
        lemma_skip_space(s, from + 1);
    }
}

proof fn lemma_skip_space_back(s: Seq<char>, to: int)
    requires
        0 <= to <= s.len(),
    ensures
        0 <= skip_space_back(s, to) <= to,
    decreases to,
{
    if to > 0 && whitespace(s[to - 1]) {
        lemma_skip_space_back(s, to - 1);
    }
}

/// Text without white space at its two ends stays as it is.
pub proof fn lemma_trim_noop(s: Seq<char>)
    requires
        s.len() > 0 ==> !whitespace(s[0]) && !whitespace(s.last()),
    ensures
        trim(s) == s,
{
    if s.len() > 0 {
        assert(s.subrange(0, s.len() as int) =~= s);
    } else {
        assert(s =~= Seq::<char>::empty());
    }
}

/// The start of the text behind leading white space.
pub fn trim_start_index(s: &[char]) -> (r: usize)
    ensures
        r <= s@.len(),
        r == skip_space(s@, 0),
        s@.skip(r as int) == trim_start(s@),
{
    let mut i: usize = 0;
    while i < s.len() && is_whitespace(s[i])
        invariant
            i <= s.len(),
            skip_space(s@, i as int) == skip_space(s@, 0),
        decreases s.len() - i,
    {
        i += 1;
    }
    i
}

/// The two ends of the text between leading and trailing white space.
pub fn trim_range(s: &[char]) -> (r: (usize, usize))
    ensures
        r.0 <= r.1 <= s@.len(),
        s@.subrange(r.0 as int, r.1 as int) == trim(s@),
{
    let from = trim_start_index(s);
    let mut to: usize = s.len();
    while to > 0 && is_whitespace(s[to - 1])
        invariant
            to <= s.len(),
            skip_space_back(s@, to as int) == skip_space_back(s@, s@.len() as int),
        decreases to,
    {
        to -= 1;
    }
    if from < to {
        (from, to)
    } else {
        assert(s@.subrange(0, 0) =~= trim(s@));
        (0, 0)
    }
}

/// A copy of the text between leading and trailing white space.
pub fn trimmed(s: &[char]) -> (r: Vec<char>)
    ensures
        r@ == trim(s@),
{
    let (from, to) = trim_range(s);
    crate::text::copied(&s[from..to])
}

/// Whether `p` stands in `s` at position `i`.
pub open spec fn matches_at(s: Seq<char>, p: Seq<char>, i: int) -> bool {
    0 <= i && i + p.len() <= s.len() && s.subrange(i, i + p.len()) == p
}

/// The first position of `s`, from `from` on, at which `p` stands.
pub open spec fn first_match(s: Seq<char>, p: Seq<char>, from: int) -> Option<int>
    decreases s.len() + 1 - from,
{
    if from < 0 || from + p.len() > s.len() {
        None
    } else if matches_at(s, p, from) {
        Some(from)
    } else {
        first_match(s, p, from + 1)
    }
}

/// Whether `p` stands somewhere in `s`.
pub open spec fn contains(s: Seq<char>, p: Seq<char>) -> bool {
    first_match(s, p, 0) is Some
}

/// The last position of `s`, up to `to`, at which `p` stands.
pub open spec fn last_match(s: Seq<char>, p: Seq<char>, to: int) -> Option<int>
    decreases to + 1,
{
    if to < 0 {
        None
    } else if matches_at(s, p, to) {
        Some(to)
    } else {
        last_match(s, p, to - 1)
    }
}

/// Whether `s` starts with `p`.
pub open spec fn starts_with(s: Seq<char>, p: Seq<char>) -> bool {
    matches_at(s, p, 0)
}

/// Whether `s` ends with `p`.
pub open spec fn ends_with(s: Seq<char>, p: Seq<char>) -> bool {
    p.len() <= s.len() && s.skip(s.len() - p.len()) == p
}

/// A first match is a match, and nothing in front of it is.
pub proof fn lemma_first_match(s: Seq<char>, p: Seq<char>, from: int)
    requires
        0 <= from,
    ensures
        match first_match(s, p, from) {
            Some(i) => from <= i && matches_at(s, p, i) && forall|j: int|
                from <= j < i ==> !#[trigger] matches_at(s, p, j),
            None => forall|j: int| from <= j ==> !#[trigger] matches_at(s, p, j),
        },
    decreases s.len() + 1 - from,
{
    if from + p.len() <= s.len() && !matches_at(s, p, from) {
        lemma_first_match(s, p, from + 1);
    }
}

/// Where `p` stands from `from` on, the search from `from` finds something no later.
pub proof fn lemma_first_match_exists(s: Seq<char>, p: Seq<char>, from: int, at: int)
    requires
        0 <= from <= at,
        matches_at(s, p, at),
    ensures
        first_match(s, p, from) is Some,
        from <= first_match(s, p, from)->0 <= at,
{
    lemma_first_match(s, p, from);
}

/// Whether `p` stands in `s` at position `i`.
pub fn is_match_at(s: &[char], p: &[char], i: usize) -> (r: bool)
    requires
        i <= s@.len(),
    ensures
        r == matches_at(s@, p@, i as int),
{
    if p.len() > s.len() - i {
        return false;
    }
    let part = &s[i..i + p.len()];
    assert(part@ =~= s@.subrange(i as int, i + p@.len()));
    same(part, p)
}

/// The first position of `s`, from `from` on, at which `p` stands.
pub fn find_from(s: &[char], p: &[char], from: usize) -> (r: Option<usize>)
    requires
        from <= s@.len(),
    ensures
        match r {
            Some(i) => first_match(s@, p@, from as int) == Some(i as int) && from <= i && i
                + p@.len() <= s@.len(),
            None => first_match(s@, p@, from as int) is None,
        },
{
    let mut i: usize = from;
    while i <= s.len() && p.len() <= s.len() - i
        invariant
            from <= i <= s.len() + 1,
            from <= s.len(),
            first_match(s@, p@, i as int) == first_match(s@, p@, from as int),
        decreases s.len() + 1 - i,
    {
        if is_match_at(s, p, i) {
            return Some(i);
        }
        if i == s.len() {
            assert(first_match(s@, p@, i + 1) is None);
            return None;
        }
        i += 1;
    }
    None
}

/// The last position of `s` at which `p` stands.
pub fn find_last(s: &[char], p: &[char]) -> (r: Option<usize>)
    ensures
        match r {
            Some(i) => last_match(s@, p@, s@.len() as int) == Some(i as int) && i + p@.len()
                <= s@.len(),
            None => last_match(s@, p@, s@.len() as int) is None,
        },
{
    let mut i: usize = s.len();
    loop
        invariant
            i <= s.len(),
            last_match(s@, p@, i as int) == last_match(s@, p@, s@.len() as int),
        decreases i,
    {
        if is_match_at(s, p, i) {
            return Some(i);
        }
        if i == 0 {
            assert(last_match(s@, p@, -1) is None);
            return None;
        }
        i -= 1;
    }
}

/// Whether `p` stands somewhere in `s`.
pub fn has_text(s: &[char], p: &str) -> (r: bool)
    ensures
        r == contains(s@, p@),
{
    let p_chars = chars_of(p);
    find_from(s, &p_chars, 0).is_some()
}

/// Whether `s` starts with `p`.
pub fn has_prefix(s: &[char], p: &str) -> (r: bool)
    ensures
        r == starts_with(s@, p@),
        r ==> p@.len() <= s@.len(),
{
    let p_chars = chars_of(p);
    is_match_at(s, &p_chars, 0)
}

/// The length of `p`, where `s` starts with it.
pub fn prefix_len(s: &[char], p: &str) -> (r: Option<usize>)
    ensures
        r is Some <==> starts_with(s@, p@),
        r matches Some(n) ==> n == p@.len() && n <= s@.len(),
{
    let p_chars = chars_of(p);
    if is_match_at(s, &p_chars, 0) {
        Some(p_chars.len())
    } else {
        None
    }
}

/// The length of `s` without `p`, where `s` ends with it.
pub fn suffix_start(s: &[char], p: &str) -> (r: Option<usize>)
    ensures
        r is Some <==> ends_with(s@, p@),
        r matches Some(n) ==> n == s@.len() - p@.len(),
{
    let p_chars = chars_of(p);
    if p_chars.len() > s.len() {
        return None;
    }
    let n = s.len() - p_chars.len();
    let tail = &s[n..s.len()];
    assert(tail@ =~= s@.skip(n as int));
    if same(tail, &p_chars) {
        Some(n)
    } else {
        None
    }
}

/// `s` from position `i` on, with every occurrence of `p` replaced by `to`, from left to right.
pub open spec fn replaced_from(s: Seq<char>, p: Seq<char>, to: Seq<char>, i: int) -> Seq<char>
    decreases s.len() - i,
{
    if i < 0 || i >= s.len() {
        Seq::empty()
    } else if p.len() > 0 && matches_at(s, p, i) {
        to + replaced_from(s, p, to, i + p.len())
    } else {
        seq![s[i]] + replaced_from(s, p, to, i + 1)
    }
}

/// `to` in front of every character of `s` and at its end.
pub open spec fn interleaved(s: Seq<char>, to: Seq<char>) -> Seq<char>
    decreases s.len(),
{
    if s.len() == 0 {
        to
    } else {
        interleaved(s.drop_last(), to).push(s.last()) + to
    }
}

/// `s` with every occurrence of `p` replaced by `to`, from left to right. The empty text occurs
/// in front of every character and at the end.
pub open spec fn replaced(s: Seq<char>, p: Seq<char>, to: Seq<char>) -> Seq<char> {
    if p.len() == 0 {
        interleaved(s, to)
    } else {
        replaced_from(s, p, to, 0)
    }
}

/// `s` with every occurrence of `p` replaced by `to`, from left to right.
pub fn replace_text(s: &[char], p: &[char], to: &[char]) -> (r: Vec<char>)
    ensures
        r@ == replaced(s@, p@, to@),
{
    let mut out: Vec<char> = Vec::new();
    if p.len() == 0 {
        extend(&mut out, to);
        let mut i: usize = 0;
        assert(s@.take(0) =~= Seq::<char>::empty());
        while i < s.len()
            invariant
                i <= s.len(),
                out@ == interleaved(s@.take(i as int), to@),
            decreases s.len() - i,
        {
            out.push(s[i]);
            extend(&mut out, to);
            i += 1;
            assert(s@.take(i as int).drop_last() =~= s@.take(i - 1));
        }
        assert(s@.take(i as int) =~= s@);
        return out;
    }
    let mut i: usize = 0;
    while i < s.len()
        invariant
            i <= s.len(),
            p@.len() > 0,
            out@ + replaced_from(s@, p@, to@, i as int) == replaced_from(s@, p@, to@, 0),
        decreases s.len() - i,
    {
        let ghost before = out@;
        let ghost at = i as int;
        if is_match_at(s, p, i) {
            extend(&mut out, to);
            i += p.len();
            assert(out@ + replaced_from(s@, p@, to@, i as int) =~= before + replaced_from(
                s@,
                p@,
                to@,
                at,
            ));
        } else {
            out.push(s[i]);
            i += 1;
            assert(out@ + replaced_from(s@, p@, to@, i as int) =~= before + replaced_from(
                s@,
                p@,
                to@,
                at,
            ));
        }
    }
    assert(out@ + replaced_from(s@, p@, to@, i as int) =~= out@);
    out
}

/// Appends `s` to `out`.
pub fn extend(out: &mut Vec<char>, s: &[char])
    ensures
        final(out)@ == old(out)@ + s@,
{
    let ghost start = out@;
    let mut i: usize = 0;
    while i < s.len()
        invariant
            i <= s.len(),
            out@ == start + s@.take(i as int),
        decreases s.len() - i,
    {
        out.push(s[i]);
        i += 1;
        assert(s@.take(i as int) =~= s@.take(i - 1).push(s@[i - 1]));
    }
    assert(s@.take(i as int) =~= s@);
}

/// The lower-case form of an ASCII letter; any other character as it is.
pub open spec fn ascii_lower(c: char) -> char {
    if 'A' <= c && c <= 'Z' {
        ((c as u32) + 32) as char
    } else {
        c
    }
}

/// Whether two texts are the same but for the case of ASCII letters.
pub open spec fn same_ignoring_case(a: Seq<char>, b: Seq<char>) -> bool {
    a.len() == b.len() && forall|i: int|
        0 <= i < a.len() ==> ascii_lower(#[trigger] a[i]) == ascii_lower(b[i])
}

/// The lower-case form of an ASCII letter; any other character as it is.
pub fn lower(c: char) -> (r: char)
    ensures
        r == ascii_lower(c),
{
    if 'A' <= c && c <= 'Z' {
        let n: u8 = c as u8;
        (n + 32) as char
    } else {
        c
    }
}

/// Whether two texts are the same but for the case of ASCII letters.
pub fn is_text_ignoring_case(a: &[char], b: &str) -> (r: bool)
    ensures
        r == same_ignoring_case(a@, b@),
{
    let b_chars = chars_of(b);
    if a.len() != b_chars.len() {
        return false;
    }
    let mut i: usize = 0;
    while i < a.len()
        invariant
            i <= a.len(),
            a@.len() == b_chars@.len(),
            b_chars@ == b@,
            forall|j: int| 0 <= j < i ==> ascii_lower(#[trigger] a@[j]) == ascii_lower(b@[j]),
        decreases a.len() - i,
    {
        if lower(a[i]) != lower(b_chars[i]) {
            return false;
        }
        i += 1;
    }
    true
}

/// Whether `c` is an ASCII letter.
pub open spec fn ascii_letter(c: char) -> bool {
    ('a' <= c && c <= 'z') || ('A' <= c && c <= 'Z')
}

/// Whether `c` is an ASCII digit.
pub open spec fn ascii_digit(c: char) -> bool {
    '0' <= c && c <= '9'
}

/// Whether `c` is an ASCII hexadecimal digit.
pub open spec fn ascii_hex_digit(c: char) -> bool {
    ascii_digit(c) || ('a' <= c && c <= 'f') || ('A' <= c && c <= 'F')
}

/// Whether `c` is an ASCII letter.
pub fn is_letter(c: char) -> (r: bool)
    ensures
        r == ascii_letter(c),
{
    ('a' <= c && c <= 'z') || ('A' <= c && c <= 'Z')
}

/// Whether `c` is an ASCII digit.
pub fn is_digit(c: char) -> (r: bool)
    ensures
        r == ascii_digit(c),
{
    '0' <= c && c <= '9'
}

/// Whether `c` is an ASCII hexadecimal digit.
pub fn is_hex_digit(c: char) -> (r: bool)
    ensures
        r == ascii_hex_digit(c),
{
    is_digit(c) || ('a' <= c && c <= 'f') || ('A' <= c && c <= 'F')
}

/// The position of the first `c` in `s`, or the length of `s` where it holds none.
pub open spec fn first_index(s: Seq<char>, c: char, from: int) -> int
    decreases s.len() - from,
{
    if 0 <= from < s.len() && s[from] != c {
        first_index(s, c, from + 1)
    } else {
        from
    }
}

/// The position of the first `c` in `s`, or the length of `s` where it holds none.
pub fn index_of(s: &[char], c: char) -> (r: usize)
    ensures
        r == first_index(s@, c, 0),
        r <= s@.len(),
        r < s@.len() ==> s@[r as int] == c,
{
    let mut i: usize = 0;
    while i < s.len() && s[i] != c
        invariant
            i <= s.len(),
            first_index(s@, c, i as int) == first_index(s@, c, 0),
        decreases s.len() - i,
    {
        i += 1;
    }
    i
}

// ---------------------------------------------------------------------------
// What replacing and trimming do
// ---------------------------------------------------------------------------

/// A text in which another one does not occur is left as it is by replacing that one.
pub proof fn law_nothing_else_is_replaced(s: Seq<char>, p: Seq<char>, to: Seq<char>)
    requires
        p.len() > 0,
        forall|i: int| 0 <= i < s.len() ==> !#[trigger] matches_at(s, p, i),
    ensures
        replaced(s, p, to) == s,
{
    lemma_kept(s, p, to, 0, s.len() as int);
    assert(replaced_from(s, p, to, s.len() as int) =~= Seq::<char>::empty());
    assert(s.subrange(0, s.len() as int) =~= s);
}

proof fn lemma_kept(s: Seq<char>, p: Seq<char>, to: Seq<char>, from: int, upto: int)
    requires
        p.len() > 0,
        0 <= from <= upto <= s.len(),
        forall|i: int| from <= i < upto ==> !#[trigger] matches_at(s, p, i),
    ensures
        replaced_from(s, p, to, from) == s.subrange(from, upto) + replaced_from(s, p, to, upto),
    decreases upto - from,
{
    if from < upto {
        assert(!matches_at(s, p, from));
        lemma_kept(s, p, to, from + 1, upto);
        assert(seq![s[from]] + s.subrange(from + 1, upto) =~= s.subrange(from, upto));
        assert(replaced_from(s, p, to, from) =~= s.subrange(from, upto) + replaced_from(
            s,
            p,
            to,
            upto,
        ));
    } else {
        assert(s.subrange(from, upto) =~= Seq::<char>::empty());
        assert(replaced_from(s, p, to, from) =~= s.subrange(from, upto) + replaced_from(
            s,
            p,
            to,
            upto,
        ));
    }
}

/// The first occurrence of a text is replaced, what stands in front of it is kept, and what stands
/// behind it is treated in turn.
pub proof fn law_occurrences_are_replaced_from_the_left(
    before: Seq<char>,
    p: Seq<char>,
    behind: Seq<char>,
    to: Seq<char>,
)
    requires
        p.len() > 0,
        forall|i: int|
            0 <= i < before.len() ==> !#[trigger] matches_at(before + p + behind, p, i),
    ensures
        replaced(before + p + behind, p, to) == before + to + replaced(behind, p, to),
{
    let s = before + p + behind;
    let n = before.len() as int;
    lemma_kept(s, p, to, 0, n);
    assert(s.subrange(0, n) =~= before);
    assert(s.subrange(n, n + p.len()) =~= p);
    assert(matches_at(s, p, n));
    assert(s.skip(n + p.len()) =~= behind);
    lemma_replaced_suffix(s, behind, p, to, n + p.len(), 0);
    assert(replaced(s, p, to) =~= before + to + replaced(behind, p, to));
}

proof fn lemma_replaced_suffix(
    s: Seq<char>,
    t: Seq<char>,
    p: Seq<char>,
    to: Seq<char>,
    from: int,
    i: int,
)
    requires
        p.len() > 0,
        0 <= from <= s.len(),
        s.skip(from) == t,
        0 <= i,
    ensures
        replaced_from(s, p, to, from + i) == replaced_from(t, p, to, i),
    decreases t.len() - i,
{
    if i < t.len() {
        assert(s[from + i] == s.skip(from)[i]);
        if from + i + p.len() <= s.len() {
            assert(s.subrange(from + i, from + i + p.len()) =~= t.subrange(i, i + p.len()));
        }
        assert(matches_at(s, p, from + i) == matches_at(t, p, i));
        if matches_at(t, p, i) {
            lemma_replaced_suffix(s, t, p, to, from, i + p.len());
        } else {
            lemma_replaced_suffix(s, t, p, to, from, i + 1);
        }
    }
}

/// Trimming takes off the white space at the two ends and nothing else.
pub proof fn law_trimming_takes_white_space_off(
    before: Seq<char>,
    s: Seq<char>,
    behind: Seq<char>,
)
    requires
        forall|i: int| 0 <= i < before.len() ==> whitespace(#[trigger] before[i]),
        forall|i: int| 0 <= i < behind.len() ==> whitespace(#[trigger] behind[i]),
        s.len() > 0 ==> !whitespace(s[0]) && !whitespace(s.last()),
    ensures
        trim(before + s + behind) == s,
{
    let all = before + s + behind;
    let n = before.len() as int;
    let m = n + s.len();
    if s.len() > 0 {
        lemma_space_ends(all, 0, n);
        lemma_space_starts(all, all.len() as int, m);
        assert(all.subrange(n, m) =~= s);
    } else {
        lemma_space_ends(all, 0, all.len() as int);
        lemma_skip_space_back(all, all.len() as int);
        assert(s =~= Seq::<char>::empty());
    }
}

proof fn lemma_space_ends(s: Seq<char>, from: int, to: int)
    requires
        0 <= from <= to <= s.len(),
        forall|i: int| from <= i < to ==> whitespace(#[trigger] s[i]),
        to < s.len() ==> !whitespace(s[to]),
    ensures
        skip_space(s, from) == to,
    decreases to - from,
{
    if from < to {
        assert(whitespace(s[from]));
        lemma_space_ends(s, from + 1, to);
    }
}

proof fn lemma_space_starts(s: Seq<char>, to: int, from: int)
    requires
        0 < from <= to <= s.len(),
        forall|i: int| from <= i < to ==> whitespace(#[trigger] s[i]),
        !whitespace(s[from - 1]),
    ensures
        skip_space_back(s, to) == from,
    decreases to - from,
{
    if from < to {
        assert(whitespace(s[to - 1]));
        lemma_space_starts(s, to - 1, from);
    }
}

/// The characters that programs write between words count as white space, and letters, digits and
/// the marks of TeX do not.
pub proof fn law_usual_white_space(c: char)
    ensures
        whitespace(' '),
        whitespace('\t'),
        whitespace('\n'),
        whitespace('\r'),
        '!' <= c && c <= '~' ==> !whitespace(c),
{
}

}
