//! Text primitives over character sequences: whitespace trimming, substring search,
//! line and field splitting, integer parsing and UTF-8 widths. Every operation is
//! stated over `Seq<char>`, the view of `str` and `String`.
use vstd::prelude::*;

verus! {

broadcast use vstd::string::group_string_axioms;

// ---------------------------------------------------------------------------
// Conversions

/// The characters of `s`, in order.
pub fn chars_of(s: &str) -> (r: Vec<char>)
    ensures
        r@ == s@,
{
    broadcast use vstd::string::axiom_spec_iter;

    let mut out: Vec<char> = Vec::new();
    for c in it: s.chars()
        invariant
            out@ == it.seq().take(it.index() as int),
    {
        out.push(c);
    }
    out
}

/// Calls `FromIterator<&char> for String`: the string made of the characters `v`.
#[verifier::external_body]
pub fn string_of(v: &[char]) -> (r: String)
    ensures
        r@ == v@,
{
    v.iter().collect()
}

/// What `str::to_lowercase` gives for a text that is not all ASCII (full Unicode
/// lower-casing).
pub uninterp spec fn lowercase(s: Seq<char>) -> Seq<char>;

/// What `str::to_uppercase` gives for a text that is not all ASCII (full Unicode
/// upper-casing).
pub uninterp spec fn uppercase(s: Seq<char>) -> Seq<char>;

/// What `char::is_alphanumeric` gives for a character beyond ASCII.
pub uninterp spec fn alphanumeric(c: char) -> bool;

/// Whether the `regex` crate's `\d` class (the Unicode decimal digits, `\p{Nd}`)
/// holds a character beyond ASCII.
pub uninterp spec fn regex_digit(c: char) -> bool;

/// Whether the `regex` crate's `\w` class (Unicode word characters) holds a
/// character beyond ASCII.
pub uninterp spec fn regex_word(c: char) -> bool;

/// Every character of `t` is ASCII.
pub open spec fn ascii_text(t: Seq<char>) -> bool {
    forall|i: int| 0 <= i < t.len() ==> (#[trigger] t[i] as u32) < 0x80
}

pub open spec fn is_ascii_letter(c: char) -> bool {
    ('a' <= c && c <= 'z') || ('A' <= c && c <= 'Z')
}

/// An ASCII upper-case letter made lower-case; any other character unchanged.
pub open spec fn ascii_to_lower(c: char) -> char {
    if 'A' <= c <= 'Z' {
        ((c as u32) + 32) as char
    } else {
        c
    }
}

/// An ASCII lower-case letter made upper-case; any other character unchanged.
pub open spec fn ascii_to_upper(c: char) -> char {
    if 'a' <= c <= 'z' {
        ((c as u32) - 32) as char
    } else {
        c
    }
}

/// `str::to_lowercase`: an ASCII text letter by letter, any other by `lowercase`.
pub open spec fn lower_text(s: Seq<char>) -> Seq<char> {
    if ascii_text(s) {
        s.map_values(|c: char| ascii_to_lower(c))
    } else {
        lowercase(s)
    }
}

/// `str::to_uppercase`: an ASCII text letter by letter, any other by `uppercase`.
pub open spec fn upper_text(s: Seq<char>) -> Seq<char> {
    if ascii_text(s) {
        s.map_values(|c: char| ascii_to_upper(c))
    } else {
        uppercase(s)
    }
}

/// `char::is_alphanumeric`: among ASCII characters the letters and digits.
pub open spec fn alnum_char(c: char) -> bool {
    if (c as u32) < 0x80 {
        is_digit(c) || is_ascii_letter(c)
    } else {
        alphanumeric(c)
    }
}

/// The `regex` crate's `\d`: among ASCII characters `0` to `9`; no white space is a
/// decimal digit.
pub open spec fn decimal_digit(c: char) -> bool {
    if (c as u32) < 0x80 {
        is_digit(c)
    } else {
        !is_ws(c) && regex_digit(c)
    }
}

/// The `regex` crate's `\w`: among ASCII characters the letters, digits and `_`.
pub open spec fn word_char(c: char) -> bool {
    if (c as u32) < 0x80 {
        is_digit(c) || is_ascii_letter(c) || c == '_'
    } else {
        regex_word(c)
    }
}

/// Asks the `regex` crate whether `c` is in its `\d` class (`\p{Nd}`, which among
/// ASCII characters holds exactly `0` to `9` and holds no white-space character; see
/// `decimal_digit`).
#[verifier::external_body]
pub fn is_regex_digit(c: char) -> (r: bool)
    ensures
        r == decimal_digit(c),
        (c as u32) >= 0x80 && !is_ws(c) ==> r == regex_digit(c),
{
    regex::Regex::new(r"\A\d\z").unwrap().is_match(&c.to_string())
}

/// Asks the `regex` crate whether `c` is in its `\w` class (which among ASCII
/// characters holds exactly the letters, the digits and `_`; see `word_char`).
#[verifier::external_body]
pub fn is_regex_word(c: char) -> (r: bool)
    ensures
        r == word_char(c),
        (c as u32) >= 0x80 ==> r == regex_word(c),
{
    regex::Regex::new(r"\A\w\z").unwrap().is_match(&c.to_string())
}

/// Calls `str::to_lowercase` (see `lower_text`): as the Unicode case mapping that std
/// documents gives for ASCII characters, an ASCII text is lower-cased letter by
/// letter, `A`..`Z` becoming `a`..`z`.
#[verifier::external_body]
pub fn to_lowercase(s: &str) -> (r: String)
    ensures
        r@ == lower_text(s@),
        !ascii_text(s@) ==> r@ == lowercase(s@),
{
    s.to_lowercase()
}

/// Calls `str::to_uppercase` (see `upper_text`): as the Unicode case mapping that std
/// documents gives for ASCII characters, an ASCII text is upper-cased letter by
/// letter, `a`..`z` becoming `A`..`Z`.
#[verifier::external_body]
pub fn to_uppercase(s: &str) -> (r: String)
    ensures
        r@ == upper_text(s@),
        !ascii_text(s@) ==> r@ == uppercase(s@),
{
    s.to_uppercase()
}

/// Calls `char::is_alphanumeric` (see `alnum_char`): among ASCII characters it holds
/// exactly of the letters and the digits.
#[verifier::external_body]
pub fn is_alphanumeric(c: char) -> (r: bool)
    ensures
        r == alnum_char(c),
        (c as u32) >= 0x80 ==> r == alphanumeric(c),
{
    c.is_alphanumeric()
}

/// Lower-cases a character sequence (see `lower_text`).
pub fn lower_chars(s: &[char]) -> (r: Vec<char>)
    ensures
        r@ == lower_text(s@),
{
    let st = string_of(s);
    let lo = to_lowercase(st.as_str());
    chars_of(lo.as_str())
}

/// Appends the characters of `s`.
pub fn push_str(out: &mut Vec<char>, s: &str)
    ensures
        final(out)@ == old(out)@ + s@,
{
    let mut cs = chars_of(s);
    out.append(&mut cs);
}

/// Appends the characters of `s`.
pub fn push_chars(out: &mut Vec<char>, s: &[char])
    ensures
        final(out)@ == old(out)@ + s@,
{
    let mut i: usize = 0;
    while i < s.len()
        invariant
            i <= s.len(),
            out@ == old(out)@ + s@.take(i as int),
        decreases s.len() - i,
    {
        out.push(s[i]);
        i = i + 1;
        proof {
            assert(s@.take(i as int) == s@.take(i - 1) + seq![s@[i - 1]]);
        }
    }
    proof {
        assert(s@.take(s@.len() as int) == s@);
    }
}

/// The characters `s[lo..hi]` as a new vector.
pub fn slice_chars(s: &[char], lo: usize, hi: usize) -> (r: Vec<char>)
    requires
        lo <= hi <= s@.len(),
    ensures
        r@ == s@.subrange(lo as int, hi as int),
{
    let mut r: Vec<char> = Vec::new();
    let mut i = lo;
    while i < hi
        invariant
            lo <= i <= hi,
            hi <= s@.len(),
            r@ == s@.subrange(lo as int, i as int),
        decreases hi - i,
    {
        r.push(s[i]);
        i = i + 1;
        proof {
            assert(s@.subrange(lo as int, i as int) == s@.subrange(lo as int, i - 1) + seq![
                s@[i - 1],
            ]);
        }
    }
    r
}

// ---------------------------------------------------------------------------
// Whitespace

/// The Unicode `White_Space` property, which is both `char::is_whitespace` and the
/// `\s` class of Unicode regular expressions.
pub open spec fn is_ws(c: char) -> bool {
    let u = c as u32;
    ||| 0x09 <= u <= 0x0D
    ||| u == 0x20
    ||| u == 0x85
    ||| u == 0xA0
    ||| u == 0x1680
    ||| 0x2000 <= u <= 0x200A
    ||| u == 0x2028
    ||| u == 0x2029
    ||| u == 0x202F
    ||| u == 0x205F
    ||| u == 0x3000
}

pub fn is_whitespace(c: char) -> (r: bool)
    ensures
        r == is_ws(c),
{
    let u = c as u32;
    (0x09 <= u && u <= 0x0D) || u == 0x20 || u == 0x85 || u == 0xA0 || u == 0x1680 || (0x2000
        <= u && u <= 0x200A) || u == 0x2028 || u == 0x2029 || u == 0x202F || u == 0x205F || u
        == 0x3000
}

/// First position in `[i, hi)` that holds no whitespace, or `hi`.
pub open spec fn ws_end(s: Seq<char>, i: int, hi: int) -> int
    decreases hi - i,
{
    if i < hi && is_ws(s[i]) {
        ws_end(s, i + 1, hi)
    } else {
        i
    }
}

/// The end of `[lo, j)` once trailing whitespace is removed.
pub open spec fn ws_start(s: Seq<char>, lo: int, j: int) -> int
    decreases j - lo,
{
    if lo < j && is_ws(s[j - 1]) {
        ws_start(s, lo, j - 1)
    } else {
        j
    }
}

/// `s[lo..hi]` without leading and trailing whitespace.
pub open spec fn trimmed(s: Seq<char>, lo: int, hi: int) -> Seq<char> {
    let a = ws_end(s, lo, hi);
    s.subrange(a, ws_start(s, a, hi))
}

/// `str::trim`.
pub open spec fn trim(s: Seq<char>) -> Seq<char> {
    trimmed(s, 0, s.len() as int)
}

pub proof fn lemma_ws_end_bounds(s: Seq<char>, i: int, hi: int)
    requires
        i <= hi,
    ensures
        i <= ws_end(s, i, hi) <= hi,
        forall|k: int| i <= k < ws_end(s, i, hi) ==> is_ws(#[trigger] s[k]),
        ws_end(s, i, hi) < hi ==> !is_ws(s[ws_end(s, i, hi)]),
    decreases hi - i,
{
    if i < hi && is_ws(s[i]) {
        lemma_ws_end_bounds(s, i + 1, hi);
    }
}

pub proof fn lemma_ws_start_bounds(s: Seq<char>, lo: int, j: int)
    requires
        lo <= j,
    ensures
        lo <= ws_start(s, lo, j) <= j,
        forall|k: int| ws_start(s, lo, j) <= k < j ==> is_ws(#[trigger] s[k]),
        ws_start(s, lo, j) > lo ==> !is_ws(s[ws_start(s, lo, j) - 1]),
    decreases j - lo,
{
    if lo < j && is_ws(s[j - 1]) {
        lemma_ws_start_bounds(s, lo, j - 1);
    }
}

/// The bounds of `s[lo..hi]` once leading and trailing whitespace is removed.
pub fn trim_bounds(s: &[char], lo: usize, hi: usize) -> (r: (usize, usize))
    requires
        lo <= hi <= s@.len(),
    ensures
        r.0 == ws_end(s@, lo as int, hi as int),
        r.1 == ws_start(s@, r.0 as int, hi as int),
        lo <= r.0 <= r.1 <= hi,
{
    let mut a = lo;
    while a < hi && is_whitespace(s[a])
        invariant
            lo <= a <= hi,
            hi <= s@.len(),
            ws_end(s@, lo as int, hi as int) == ws_end(s@, a as int, hi as int),
        decreases hi - a,
    {
        a = a + 1;
    }
    let mut b = hi;
    while b > a && is_whitespace(s[b - 1])
        invariant
            a <= b <= hi,
            hi <= s@.len(),
            ws_start(s@, a as int, hi as int) == ws_start(s@, a as int, b as int),
        decreases b - a,
    {
        b = b - 1;
    }
    (a, b)
}

/// `str::trim` on a character sequence.
pub fn trim_chars(s: &[char]) -> (r: Vec<char>)
    ensures
        r@ == trim(s@),
{
    let (a, b) = trim_bounds(s, 0, s.len());
    slice_chars(s, a, b)
}

// ---------------------------------------------------------------------------
// Matching

/// `p` occurs in `s` at position `i`.
pub open spec fn occurs_at(s: Seq<char>, i: int, p: Seq<char>) -> bool {
    0 <= i && i + p.len() <= s.len() && s.subrange(i, i + p.len()) == p
}

/// `str::starts_with`.
pub open spec fn starts_with(s: Seq<char>, p: Seq<char>) -> bool {
    occurs_at(s, 0, p)
}

/// `str::contains` with a string pattern.
pub open spec fn contains(s: Seq<char>, p: Seq<char>) -> bool {
    exists|i: int| occurs_at(s, i, p)
}

/// `str::contains` with a character pattern.
pub open spec fn has_char(s: Seq<char>, c: char) -> bool {
    exists|i: int| 0 <= i < s.len() && s[i] == c
}

/// First position at or after `i` where `p` occurs.
pub open spec fn find_from(s: Seq<char>, p: Seq<char>, i: int) -> Option<int>
    decreases s.len() + 1 - i,
{
    if i < 0 || i + p.len() > s.len() {
        None
    } else if occurs_at(s, i, p) {
        Some(i)
    } else {
        find_from(s, p, i + 1)
    }
}

/// `str::find` with a string pattern.
pub open spec fn find(s: Seq<char>, p: Seq<char>) -> Option<int> {
    find_from(s, p, 0)
}

pub proof fn lemma_find_from(s: Seq<char>, p: Seq<char>, i: int)
    requires
        0 <= i,
    ensures
        find_from(s, p, i) matches Some(k) ==> i <= k && occurs_at(s, k, p) && forall|j: int|
            i <= j < k ==> !occurs_at(s, j, p),
        find_from(s, p, i) is None ==> forall|j: int| i <= j ==> !occurs_at(s, j, p),
    decreases s.len() + 1 - i,
{
    if i + p.len() > s.len() {
    } else if occurs_at(s, i, p) {
    } else {
        lemma_find_from(s, p, i + 1);
    }
}

pub proof fn lemma_contains_find(s: Seq<char>, p: Seq<char>)
    ensures
        contains(s, p) <==> find(s, p) is Some,
{
    lemma_find_from(s, p, 0);
}

/// `p` occurs at position `i` of `s`.
pub fn matches_at(s: &[char], i: usize, p: &[char]) -> (r: bool)
    ensures
        r == occurs_at(s@, i as int, p@),
{
    if i > s.len() || p.len() > s.len() - i {
        return false;
    }
    let mut k: usize = 0;
    while k < p.len()
        invariant
            i <= s.len(),
            p.len() <= s.len() - i,
            i + p@.len() <= s@.len(),
            k <= p@.len(),
            forall|j: int| 0 <= j < k ==> s@[i + j] == p@[j],
        decreases p.len() - k,
    {
        if s[i + k] != p[k] {
            assert(s@.subrange(i as int, i + p@.len())[k as int] != p@[k as int]);
            return false;
        }
        k = k + 1;
    }
    assert(s@.subrange(i as int, i + p@.len()) =~= p@);
    true
}

/// First position at or after `from` where `p` occurs.
pub fn find_chars(s: &[char], p: &[char], from: usize) -> (r: Option<usize>)
    ensures
        r matches Some(k) ==> find_from(s@, p@, from as int) == Some(k as int),
        r is None ==> find_from(s@, p@, from as int) is None,
{
    if p.len() > s.len() {
        return None;
    }
    let last = s.len() - p.len();
    let mut i = from;
    while i <= last
        invariant
            from <= i,
            last == s@.len() - p@.len(),
            find_from(s@, p@, from as int) == find_from(s@, p@, i as int),
        decreases last + 1 - i,
    {
        if matches_at(s, i, p) {
            return Some(i);
        }
        if i == last {
            assert(find_from(s@, p@, i + 1) is None);
            return None;
        }
        i = i + 1;
    }
    None
}

/// `str::contains` with a string pattern.
pub fn contains_chars(s: &[char], p: &[char]) -> (r: bool)
    ensures
        r == contains(s@, p@),
{
    proof {
        lemma_contains_find(s@, p@);
    }
    find_chars(s, p, 0).is_some()
}

/// `str::contains` with a literal pattern.
pub fn contains_str(s: &[char], p: &str) -> (r: bool)
    ensures
        r == contains(s@, p@),
{
    let pc = chars_of(p);
    contains_chars(s, &pc)
}

/// `str::starts_with` with a literal pattern.
pub fn starts_with_str(s: &[char], p: &str) -> (r: bool)
    ensures
        r == starts_with(s@, p@),
{
    let pc = chars_of(p);
    matches_at(s, 0, &pc)
}

/// `s == p`.
pub fn eq_str(s: &[char], p: &str) -> (r: bool)
    ensures
        r == (s@ == p@),
{
    let pc = chars_of(p);
    if s.len() != pc.len() {
        return false;
    }
    let r = matches_at(s, 0, &pc);
    proof {
        assert(s@.subrange(0, pc@.len() as int) =~= s@);
    }
    r
}

/// `s` contains the character `c`.
pub fn has_char_exec(s: &[char], c: char) -> (r: bool)
    ensures
        r == has_char(s@, c),
{
    let mut i: usize = 0;
    while i < s.len()
        invariant
            i <= s@.len(),
            forall|j: int| 0 <= j < i ==> s@[j] != c,
        decreases s.len() - i,
    {
        if s[i] == c {
            return true;
        }
        i = i + 1;
    }
    false
}

// ---------------------------------------------------------------------------
// ASCII case

/// The code of a character with ASCII upper-case letters mapped to lower case.
pub open spec fn ascii_lower(c: char) -> int {
    if 'A' <= c <= 'Z' {
        (c as u32) + 32
    } else {
        c as u32 as int
    }
}

/// `str::eq_ignore_ascii_case`.
pub open spec fn eq_ignore_ascii_case(a: Seq<char>, b: Seq<char>) -> bool {
    a.len() == b.len() && forall|i: int| 0 <= i < a.len() ==> ascii_lower(#[trigger] a[i])
        == ascii_lower(b[i])
}

pub fn ascii_lower_code(c: char) -> (r: u32)
    ensures
        r == ascii_lower(c),
{
    if 'A' <= c && c <= 'Z' {
        (c as u32) + 32
    } else {
        c as u32
    }
}

/// `str::eq_ignore_ascii_case` against a literal.
pub fn eq_ignore_case_str(s: &[char], p: &str) -> (r: bool)
    ensures
        r == eq_ignore_ascii_case(s@, p@),
{
    let pc = chars_of(p);
    if s.len() != pc.len() {
        return false;
    }
    let mut i: usize = 0;
    while i < s.len()
        invariant
            s@.len() == pc@.len(),
            pc@ == p@,
            i <= s@.len(),
            forall|j: int| 0 <= j < i ==> ascii_lower(#[trigger] s@[j]) == ascii_lower(pc@[j]),
        decreases s.len() - i,
    {
        if ascii_lower_code(s[i]) != ascii_lower_code(pc[i]) {
            assert(ascii_lower(s@[i as int]) != ascii_lower(p@[i as int]));
            return false;
        }
        i = i + 1;
    }
    true
}

// ---------------------------------------------------------------------------
// Lines and fields

/// The character sequences held by a vector of character vectors.
pub open spec fn views(v: Seq<Vec<char>>) -> Seq<Seq<char>> {
    v.map_values(|x: Vec<char>| x@)
}

/// First position at or after `i` holding `c`, or the length.
pub open spec fn next_char(s: Seq<char>, c: char, i: int) -> int
    decreases s.len() - i,
{
    if i >= s.len() {
        s.len() as int
    } else if s[i] == c {
        i
    } else {
        next_char(s, c, i + 1)
    }
}

pub proof fn lemma_next_char(s: Seq<char>, c: char, i: int)
    requires
        0 <= i <= s.len(),
    ensures
        i <= next_char(s, c, i) <= s.len(),
        next_char(s, c, i) < s.len() ==> s[next_char(s, c, i)] == c,
        forall|k: int| i <= k < next_char(s, c, i) ==> s[k] != c,
    decreases s.len() - i,
{
    if i < s.len() && s[i] != c {
        lemma_next_char(s, c, i + 1);
    }
}

/// The line that starts at `i`: up to the next line feed, without the line feed
/// and without a carriage return just before it.
pub open spec fn line_at(s: Seq<char>, i: int) -> Seq<char> {
    let e = next_char(s, '\n', i);
    if e < s.len() && e > i && s[e - 1] == '\r' {
        s.subrange(i, e - 1)
    } else {
        s.subrange(i, e)
    }
}

/// The lines from position `i` on.
pub open spec fn lines_from(s: Seq<char>, i: int) -> Seq<Seq<char>>
    decreases s.len() - i,
{
    if i < 0 || i >= s.len() {
        seq![]
    } else {
        let e = next_char(s, '\n', i);
        if i <= e && e < s.len() {
            seq![line_at(s, i)] + lines_from(s, e + 1)
        } else {
            seq![line_at(s, i)]
        }
    }
}

/// `str::lines`.
pub open spec fn lines(s: Seq<char>) -> Seq<Seq<char>> {
    lines_from(s, 0)
}

proof fn lemma_lines_from_count(s: Seq<char>, i: int)
    requires
        0 <= i,
    ensures
        lines_from(s, i).len() <= if i < s.len() {
            s.len() - i
        } else {
            0
        },
    decreases s.len() - i,
{
    if i < s.len() {
        lemma_next_char(s, '\n', i);
        let e = next_char(s, '\n', i);
        if e < s.len() {
            lemma_lines_from_count(s, e + 1);
        }
    }
}

/// A text has no more lines than characters.
pub proof fn lemma_lines_count(s: Seq<char>)
    ensures
        lines(s).len() <= s.len(),
{
    lemma_lines_from_count(s, 0);
}

/// `str::lines` on a character sequence.
pub fn split_lines(s: &[char]) -> (r: Vec<Vec<char>>)
    ensures
        views(r@) == lines(s@),
{
    let mut r: Vec<Vec<char>> = Vec::new();
    let mut i: usize = 0;
    while i < s.len()
        invariant
            i <= s@.len(),
            views(r@) + lines_from(s@, i as int) == lines(s@),
        decreases s.len() - i,
    {
        let mut e = i;
        while e < s.len() && s[e] != '\n'
            invariant
                i <= e <= s@.len(),
                next_char(s@, '\n', i as int) == next_char(s@, '\n', e as int),
            decreases s.len() - e,
        {
            e = e + 1;
        }
        let end = if e < s.len() && e > i && s[e - 1] == '\r' {
            e - 1
        } else {
            e
        };
        let line = slice_chars(s, i, end);
        proof {
            lemma_next_char(s@, '\n', i as int);
            assert(line@ == line_at(s@, i as int));
        }
        let ghost prev = r@;
        r.push(line);
        proof {
            assert(views(r@) =~= views(prev).push(line@));
        }
        if e >= s.len() {
            proof {
                assert(lines_from(s@, i as int) == seq![line_at(s@, i as int)]);
                assert(views(r@) =~= views(prev) + lines_from(s@, i as int));
            }
            return r;
        }
        proof {
            assert(lines_from(s@, i as int) == seq![line_at(s@, i as int)] + lines_from(
                s@,
                e + 1,
            ));
            assert(views(r@) + lines_from(s@, e + 1) =~= views(prev) + lines_from(s@, i as int));
        }
        i = e + 1;
    }
    proof {
        assert(views(r@) + lines_from(s@, i as int) =~= views(r@));
    }
    r
}

/// The pieces of `s` between occurrences of `sep`, from position `i` on.
pub open spec fn split_from(s: Seq<char>, sep: char, i: int) -> Seq<Seq<char>>
    decreases s.len() + 1 - i,
{
    if i < 0 || i > s.len() {
        seq![]
    } else {
        let e = next_char(s, sep, i);
        if e < s.len() && e >= i {
            seq![s.subrange(i, e)] + split_from(s, sep, e + 1)
        } else {
            seq![s.subrange(i, s.len() as int)]
        }
    }
}

/// `str::split` with a character separator.
pub open spec fn split(s: Seq<char>, sep: char) -> Seq<Seq<char>> {
    split_from(s, sep, 0)
}

/// `str::split` with a character separator, on a character sequence.
pub fn split_char(s: &[char], sep: char) -> (r: Vec<Vec<char>>)
    ensures
        views(r@) == split(s@, sep),
{
    let mut r: Vec<Vec<char>> = Vec::new();
    let mut i: usize = 0;
    loop
        invariant
            i <= s@.len(),
            views(r@) + split_from(s@, sep, i as int) == split(s@, sep),
        decreases s.len() + 1 - i,
    {
        let mut e = i;
        while e < s.len() && s[e] != sep
            invariant
                i <= e <= s@.len(),
                next_char(s@, sep, i as int) == next_char(s@, sep, e as int),
            decreases s.len() - e,
        {
            e = e + 1;
        }
        proof {
            lemma_next_char(s@, sep, i as int);
        }
        let piece = slice_chars(s, i, e);
        if e < s.len() {
            proof {
                assert(split_from(s@, sep, i as int) == seq![piece@] + split_from(
                    s@,
                    sep,
                    e + 1,
                ));
                assert(views(r@).push(piece@) + split_from(s@, sep, e + 1) =~= views(r@)
                    + split_from(s@, sep, i as int));
            }
            let ghost prev = r@;
            r.push(piece);
            assert(views(r@) =~= views(prev).push(piece@));
            i = e + 1;
        } else {
            proof {
                assert(split_from(s@, sep, i as int) == seq![piece@]);
                assert(views(r@).push(piece@) =~= views(r@) + split_from(
                    s@,
                    sep,
                    i as int,
                ));
            }
            let ghost prev = r@;
            r.push(piece);
            assert(views(r@) =~= views(prev).push(piece@));
            return r;
        }
    }
}

// ---------------------------------------------------------------------------
// Markdown table cells

/// Position `p` starts a line: the start of the text, or just after a line feed.
pub open spec fn is_line_start(t: Seq<char>, p: int) -> bool {
    p == 0 || (0 < p <= t.len() && t[p - 1] == '\n')
}

/// The content of the table cell that begins at `a` and ends at the next `|`, and
/// the position after that `|`. The content is the cell without surrounding
/// whitespace; a cell of whitespace only yields its last character; an empty cell,
/// or one with no closing `|`, yields nothing. (This is what `\s*([^|]+?)\s*\|`
/// matches at `a`, where `\s` is Unicode whitespace.)
pub open spec fn bar_cell(t: Seq<char>, a: int) -> Option<(Seq<char>, int)> {
    let b = next_char(t, '|', a);
    if a < 0 || a > t.len() || b >= t.len() || b <= a {
        None
    } else {
        let seg = t.subrange(a, b);
        let g = if trim(seg).len() > 0 {
            trim(seg)
        } else {
            seg.subrange(seg.len() - 1, seg.len() as int)
        };
        Some((g, b + 1))
    }
}

pub proof fn lemma_trimmed_shift(t: Seq<char>, a: int, b: int)
    requires
        0 <= a <= b <= t.len(),
    ensures
        trim(t.subrange(a, b)) == trimmed(t, a, b),
        ws_end(t, a, b) < ws_start(t, ws_end(t, a, b), b) <==> trim(t.subrange(a, b)).len() > 0,
{
    let seg = t.subrange(a, b);
    lemma_ws_end_shift(t, a, b, 0);
    let x = ws_end(t, a, b);
    lemma_ws_end_bounds(t, a, b);
    lemma_ws_start_shift(t, a, x, b);
    lemma_ws_start_bounds(t, x, b);
    assert(trim(seg) =~= trimmed(t, a, b));
}

pub proof fn lemma_ws_end_shift(t: Seq<char>, a: int, b: int, k: int)
    requires
        0 <= a <= b <= t.len(),
        0 <= k <= b - a,
    ensures
        ws_end(t.subrange(a, b), k, b - a) == ws_end(t, a + k, b) - a,
    decreases b - a - k,
{
    if k < b - a && is_ws(t[a + k]) {
        lemma_ws_end_shift(t, a, b, k + 1);
    }
}

proof fn lemma_ws_start_shift(t: Seq<char>, a: int, x: int, b: int)
    requires
        0 <= a <= x <= b <= t.len(),
    ensures
        ws_start(t.subrange(a, b), x - a, b - a) == ws_start(t, x, b) - a,
    decreases b - x,
{
    lemma_ws_start_shift_gen(t, a, x, b, b);
}

proof fn lemma_ws_start_shift_gen(t: Seq<char>, a: int, x: int, j: int, b: int)
    requires
        0 <= a <= x <= j <= b <= t.len(),
    ensures
        ws_start(t.subrange(a, b), x - a, j - a) == ws_start(t, x, j) - a,
    decreases j - x,
{
    if x < j && is_ws(t[j - 1]) {
        lemma_ws_start_shift_gen(t, a, x, j - 1, b);
    }
}

/// The table cell that begins at `a` (see `bar_cell`).
pub fn bar_cell_exec(t: &[char], a: usize) -> (r: Option<(Vec<char>, usize)>)
    ensures
        match bar_cell(t@, a as int) {
            Some((g, e)) => r matches Some((rg, re)) && rg@ == g && re == e,
            None => r is None,
        },
{
    if a > t.len() {
        return None;
    }
    let mut b = a;
    while b < t.len() && t[b] != '|'
        invariant
            a <= b <= t@.len(),
            next_char(t@, '|', a as int) == next_char(t@, '|', b as int),
        decreases t.len() - b,
    {
        b = b + 1;
    }
    proof {
        lemma_next_char(t@, '|', a as int);
    }
    if b >= t.len() || b <= a {
        return None;
    }
    let (x, y) = trim_bounds(t, a, b);
    proof {
        lemma_trimmed_shift(t@, a as int, b as int);
    }
    let g = if x < y {
        slice_chars(t, x, y)
    } else {
        slice_chars(t, b - 1, b)
    };
    proof {
        let seg = t@.subrange(a as int, b as int);
        if x >= y {
            assert(seg.subrange(seg.len() - 1, seg.len() as int) =~= t@.subrange(b - 1, b as int));
        }
    }
    Some((g, b + 1))
}

/// The first line start at or after `pos` where the matcher `m` succeeds.
pub open spec fn next_match<R>(t: Seq<char>, pos: int, m: spec_fn(int) -> Option<(R, int)>) -> Option<int>
    decreases t.len() + 1 - pos,
{
    if pos < 0 || pos > t.len() {
        None
    } else if is_line_start(t, pos) && m(pos) is Some {
        Some(pos)
    } else {
        next_match(t, pos + 1, m)
    }
}

/// The successive matches of a line-anchored pattern (`(?m)^...`) from `pos` on, as
/// `Regex::captures_iter` finds them: the leftmost match, then the leftmost match at
/// or after its end, and so on.
pub open spec fn all_matches<R>(t: Seq<char>, pos: int, m: spec_fn(int) -> Option<(R, int)>) -> Seq<R>
    decreases t.len() + 1 - pos,
{
    match next_match(t, pos, m) {
        None => seq![],
        Some(p) => {
            let e = m(p).unwrap().1;
            if pos <= p < e <= t.len() {
                seq![m(p).unwrap().0] + all_matches(t, e, m)
            } else {
                seq![m(p).unwrap().0]
            }
        },
    }
}

pub proof fn lemma_next_match_bounds<R>(t: Seq<char>, pos: int, m: spec_fn(int) -> Option<(R, int)>)
    ensures
        next_match(t, pos, m) matches Some(p) ==> pos <= p <= t.len() && is_line_start(t, p)
            && m(p) is Some,
    decreases t.len() + 1 - pos,
{
    if 0 <= pos <= t.len() && !(is_line_start(t, pos) && m(pos) is Some) {
        lemma_next_match_bounds(t, pos + 1, m);
    }
}

/// No match at `p`: the matches from `p` are those from `p + 1`.
pub proof fn lemma_all_matches_skip<R>(t: Seq<char>, p: int, m: spec_fn(int) -> Option<(R, int)>)
    requires
        0 <= p <= t.len(),
        !(is_line_start(t, p) && m(p) is Some),
    ensures
        all_matches(t, p, m) == all_matches(t, p + 1, m),
{
    lemma_next_match_bounds(t, p + 1, m);
    assert(next_match(t, p, m) == next_match(t, p + 1, m));
}

/// A match at `p` that ends at `e`: it comes first, then the matches from `e`.
pub proof fn lemma_all_matches_take<R>(t: Seq<char>, p: int, m: spec_fn(int) -> Option<(R, int)>)
    requires
        0 <= p <= t.len(),
        is_line_start(t, p),
        m(p) matches Some(x) && p < x.1 <= t.len(),
    ensures
        all_matches(t, p, m) == seq![m(p).unwrap().0] + all_matches(t, m(p).unwrap().1, m),
{
}

/// Position `p` starts a line.
pub fn line_start_exec(t: &[char], p: usize) -> (r: bool)
    requires
        p <= t@.len(),
    ensures
        r == is_line_start(t@, p as int),
{
    p == 0 || t[p - 1] == '\n'
}

// ---------------------------------------------------------------------------
// Integers

/// Why `str::parse` refused an integer.
#[derive(Debug, Clone, Copy, PartialEq, Eq, Structural)]
pub enum IntErrorKind {
    Empty,
    InvalidDigit,
    PosOverflow,
    NegOverflow,
}

pub open spec fn is_digit(c: char) -> bool {
    '0' <= c <= '9'
}

pub open spec fn digit_value(c: char) -> int {
    (c as u32) - ('0' as u32)
}

/// Reads decimal digits from position `i` on, adding to `acc`; values above `max`
/// overflow.
pub open spec fn scan_pos(s: Seq<char>, i: int, acc: int, max: int) -> Result<int, IntErrorKind>
    decreases s.len() - i,
{
    if i >= s.len() {
        Ok(acc)
    } else if !is_digit(s[i]) {
        Err(IntErrorKind::InvalidDigit)
    } else if acc * 10 + digit_value(s[i]) > max {
        Err(IntErrorKind::PosOverflow)
    } else {
        scan_pos(s, i + 1, acc * 10 + digit_value(s[i]), max)
    }
}

/// Reads decimal digits from position `i` on, subtracting from `acc`; values below
/// `min` overflow.
pub open spec fn scan_neg(s: Seq<char>, i: int, acc: int, min: int) -> Result<int, IntErrorKind>
    decreases s.len() - i,
{
    if i >= s.len() {
        Ok(acc)
    } else if !is_digit(s[i]) {
        Err(IntErrorKind::InvalidDigit)
    } else if acc * 10 - digit_value(s[i]) < min {
        Err(IntErrorKind::NegOverflow)
    } else {
        scan_neg(s, i + 1, acc * 10 - digit_value(s[i]), min)
    }
}

/// `str::parse::<u32>`.
pub open spec fn parse_u32(s: Seq<char>) -> Result<int, IntErrorKind> {
    if s.len() == 0 {
        Err(IntErrorKind::Empty)
    } else if s[0] == '+' {
        if s.len() == 1 {
            Err(IntErrorKind::InvalidDigit)
        } else {
            scan_pos(s, 1, 0, u32::MAX as int)
        }
    } else {
        scan_pos(s, 0, 0, u32::MAX as int)
    }
}

/// `str::parse::<i32>`.
pub open spec fn parse_i32(s: Seq<char>) -> Result<int, IntErrorKind> {
    if s.len() == 0 {
        Err(IntErrorKind::Empty)
    } else if s[0] == '+' || s[0] == '-' {
        if s.len() == 1 {
            Err(IntErrorKind::InvalidDigit)
        } else if s[0] == '+' {
            scan_pos(s, 1, 0, i32::MAX as int)
        } else {
            scan_neg(s, 1, 0, i32::MIN as int)
        }
    } else {
        scan_pos(s, 0, 0, i32::MAX as int)
    }
}

proof fn lemma_scan_pos_range(s: Seq<char>, i: int, acc: int, max: int)
    requires
        0 <= acc <= max,
    ensures
        scan_pos(s, i, acc, max) matches Ok(v) ==> 0 <= v <= max,
    decreases s.len() - i,
{
    if i < s.len() && is_digit(s[i]) && acc * 10 + digit_value(s[i]) <= max {
        lemma_scan_pos_range(s, i + 1, acc * 10 + digit_value(s[i]), max);
    }
}

/// A `u32` written with at most two characters is below 100.
pub proof fn lemma_parse_u32_small(s: Seq<char>)
    requires
        s.len() <= 2,
    ensures
        parse_u32(s) matches Ok(v) ==> 0 <= v < 100,
{
    reveal_with_fuel(scan_pos, 3);
}

/// An `i32` written with at most four characters lies within `-999 ..= 9999`.
pub proof fn lemma_parse_i32_small(s: Seq<char>)
    requires
        s.len() <= 4,
    ensures
        parse_i32(s) matches Ok(v) ==> -999 <= v <= 9999,
{
    reveal_with_fuel(scan_pos, 5);
    reveal_with_fuel(scan_neg, 5);
}

/// `str::parse::<u32>` on `s[lo..hi]`.
pub fn parse_u32_chars(s: &[char], lo: usize, hi: usize) -> (r: Result<u32, IntErrorKind>)
    requires
        lo <= hi <= s@.len(),
    ensures
        match r {
            Ok(v) => parse_u32(s@.subrange(lo as int, hi as int)) == Ok::<int, IntErrorKind>(v as int),
            Err(e) => parse_u32(s@.subrange(lo as int, hi as int)) == Err::<int, IntErrorKind>(e),
        },
{
    let ghost t = s@.subrange(lo as int, hi as int);
    if lo == hi {
        return Err(IntErrorKind::Empty);
    }
    let mut i = lo;
    if s[lo] == '+' {
        if hi - lo == 1 {
            return Err(IntErrorKind::InvalidDigit);
        }
        i = lo + 1;
    }
    let mut acc: u64 = 0;
    proof {
        lemma_scan_pos_range(t, (i - lo) as int, 0, u32::MAX as int);
    }
    while i < hi
        invariant
            lo <= i <= hi,
            hi <= s@.len(),
            t == s@.subrange(lo as int, hi as int),
            acc <= u32::MAX,
            parse_u32(t) == scan_pos(t, i - lo, acc as int, u32::MAX as int),
        decreases hi - i,
    {
        let c = s[i];
        assert(t[i - lo] == c);
        if c < '0' || c > '9' {
            return Err(IntErrorKind::InvalidDigit);
        }
        let d = (c as u32 - '0' as u32) as u64;
        if acc * 10 + d > u32::MAX as u64 {
            return Err(IntErrorKind::PosOverflow);
        }
        acc = acc * 10 + d;
        i = i + 1;
    }
    proof {
        lemma_scan_pos_range(t, (i - lo) as int, acc as int, u32::MAX as int);
    }
    Ok(acc as u32)
}

/// `str::parse::<i32>` on `s[lo..hi]`.
pub fn parse_i32_chars(s: &[char], lo: usize, hi: usize) -> (r: Result<i32, IntErrorKind>)
    requires
        lo <= hi <= s@.len(),
    ensures
        match r {
            Ok(v) => parse_i32(s@.subrange(lo as int, hi as int)) == Ok::<int, IntErrorKind>(v as int),
            Err(e) => parse_i32(s@.subrange(lo as int, hi as int)) == Err::<int, IntErrorKind>(e),
        },
{
    let ghost t = s@.subrange(lo as int, hi as int);
    if lo == hi {
        return Err(IntErrorKind::Empty);
    }
    if s[lo] == '+' || s[lo] == '-' {
        if hi - lo == 1 {
            return Err(IntErrorKind::InvalidDigit);
        }
    }
    let negative = s[lo] == '-';
    let mut i = if s[lo] == '+' || s[lo] == '-' {
        lo + 1
    } else {
        lo
    };
    let mut acc: i64 = 0;
    while i < hi
        invariant
            lo <= i <= hi,
            hi <= s@.len(),
            t == s@.subrange(lo as int, hi as int),
            i32::MIN <= acc <= i32::MAX,
            negative ==> acc <= 0,
            !negative ==> acc >= 0,
            negative ==> parse_i32(t) == scan_neg(t, i - lo, acc as int, i32::MIN as int),
            !negative ==> parse_i32(t) == scan_pos(t, i - lo, acc as int, i32::MAX as int),
        decreases hi - i,
    {
        let c = s[i];
        assert(t[i - lo] == c);
        if c < '0' || c > '9' {
            return Err(IntErrorKind::InvalidDigit);
        }
        let d = (c as u32 - '0' as u32) as i64;
        if negative {
            if acc * 10 - d < i32::MIN as i64 {
                return Err(IntErrorKind::NegOverflow);
            }
            acc = acc * 10 - d;
        } else {
            if acc * 10 + d > i32::MAX as i64 {
                return Err(IntErrorKind::PosOverflow);
            }
            acc = acc * 10 + d;
        }
        i = i + 1;
    }
    Ok(acc as i32)
}

/// The message `ParseIntError` displays for each kind.
pub fn int_error_message(e: IntErrorKind) -> (r: &'static str)
    ensures
        r@ == int_error_text(e),
{
    match e {
        IntErrorKind::Empty => "cannot parse integer from empty string",
        IntErrorKind::InvalidDigit => "invalid digit found in string",
        IntErrorKind::PosOverflow => "number too large to fit in target type",
        IntErrorKind::NegOverflow => "number too small to fit in target type",
    }
}

pub open spec fn int_error_text(e: IntErrorKind) -> Seq<char> {
    match e {
        IntErrorKind::Empty => "cannot parse integer from empty string"@,
        IntErrorKind::InvalidDigit => "invalid digit found in string"@,
        IntErrorKind::PosOverflow => "number too large to fit in target type"@,
        IntErrorKind::NegOverflow => "number too small to fit in target type"@,
    }
}

/// The decimal digit character for `d` in `0..10`.
pub open spec fn digit_char(d: int) -> char {
    if d == 0 {
        '0'
    } else if d == 1 {
        '1'
    } else if d == 2 {
        '2'
    } else if d == 3 {
        '3'
    } else if d == 4 {
        '4'
    } else if d == 5 {
        '5'
    } else if d == 6 {
        '6'
    } else if d == 7 {
        '7'
    } else if d == 8 {
        '8'
    } else {
        '9'
    }
}

/// Decimal rendering of a natural number (as `Display` writes it).
pub open spec fn nat_text(n: nat) -> Seq<char>
    decreases n,
{
    if n < 10 {
        seq![digit_char(n as int)]
    } else {
        nat_text(n / 10).push(digit_char((n % 10) as int))
    }
}

/// Decimal rendering of an integer (as `Display` writes it).
pub open spec fn int_text(i: int) -> Seq<char> {
    if i < 0 {
        seq!['-'] + nat_text((-i) as nat)
    } else {
        nat_text(i as nat)
    }
}

fn digit(d: u64) -> (r: char)
    requires
        d < 10,
    ensures
        r == digit_char(d as int),
{
    if d == 0 {
        '0'
    } else if d == 1 {
        '1'
    } else if d == 2 {
        '2'
    } else if d == 3 {
        '3'
    } else if d == 4 {
        '4'
    } else if d == 5 {
        '5'
    } else if d == 6 {
        '6'
    } else if d == 7 {
        '7'
    } else if d == 8 {
        '8'
    } else {
        '9'
    }
}

/// Appends the decimal rendering of `n`.
pub fn push_nat_text(out: &mut Vec<char>, n: u64)
    ensures
        final(out)@ == old(out)@ + nat_text(n as nat),
    decreases n,
{
    if n >= 10 {
        push_nat_text(out, n / 10);
    }
    out.push(digit(n % 10));
    proof {
        if n >= 10 {
            assert(nat_text(n as nat) == nat_text((n / 10) as nat).push(digit_char((n % 10) as int)));
        }
    }
}

/// Appends the decimal rendering of `i`.
pub fn push_int_text(out: &mut Vec<char>, i: i64)
    ensures
        final(out)@ == old(out)@ + int_text(i as int),
{
    if i < 0 {
        out.push('-');
        let m: u64 = if i == i64::MIN {
            9_223_372_036_854_775_808u64
        } else {
            (-i) as u64
        };
        let ghost mid = out@;
        push_nat_text(out, m);
        assert(out@ =~= old(out)@ + int_text(i as int));
    } else {
        push_nat_text(out, i as u64);
    }
}

// ---------------------------------------------------------------------------
// UTF-8 widths

/// Bytes `char::len_utf8` counts for a character.
pub open spec fn utf8_width(c: char) -> int {
    let u = c as u32;
    if u < 0x80 {
        1
    } else if u < 0x800 {
        2
    } else if u < 0x10000 {
        3
    } else {
        4
    }
}

/// `str::len`: the number of UTF-8 bytes of a character sequence.
pub open spec fn utf8_len(s: Seq<char>) -> int
    decreases s.len(),
{
    if s.len() == 0 {
        0
    } else {
        utf8_len(s.drop_last()) + utf8_width(s.last())
    }
}

pub proof fn lemma_utf8_len_nonneg(s: Seq<char>)
    ensures
        utf8_len(s) >= s.len(),
    decreases s.len(),
{
    if s.len() > 0 {
        lemma_utf8_len_nonneg(s.drop_last());
    }
}

/// `str::len` of `s[lo..hi]`, saturated at `cap` (the callers compare it with small
/// bounds).
pub fn utf8_len_capped(s: &[char], lo: usize, hi: usize, cap: usize) -> (r: usize)
    requires
        lo <= hi <= s@.len(),
    ensures
        r == (if utf8_len(s@.subrange(lo as int, hi as int)) < cap {
            utf8_len(s@.subrange(lo as int, hi as int))
        } else {
            cap as int
        }),
{
    if cap == 0 {
        proof {
            lemma_utf8_len_nonneg(s@.subrange(lo as int, hi as int));
        }
        return 0;
    }
    let mut n: usize = 0;
    let mut i = lo;
    while i < hi
        invariant
            lo <= i <= hi,
            hi <= s@.len(),
            n < cap,
            n == utf8_len(s@.subrange(lo as int, i as int)),
        decreases hi - i,
    {
        let c = s[i];
        let u = c as u32;
        let w: usize = if u < 0x80 {
            1
        } else if u < 0x800 {
            2
        } else if u < 0x10000 {
            3
        } else {
            4
        };
        proof {
            assert(s@.subrange(lo as int, i + 1).drop_last() == s@.subrange(lo as int, i as int));
        }
        if w >= cap - n {
            proof {
                lemma_utf8_len_prefix_mono(s@.subrange(lo as int, hi as int), (i + 1 - lo) as int);
                assert(s@.subrange(lo as int, hi as int).take((i + 1 - lo) as int)
                    == s@.subrange(lo as int, i + 1));
            }
            return cap;
        }
        n = n + w;
        i = i + 1;
    }
    n
}

/// A prefix is never longer in bytes than the whole.
pub proof fn lemma_utf8_len_prefix_mono(s: Seq<char>, k: int)
    requires
        0 <= k <= s.len(),
    ensures
        utf8_len(s.take(k)) <= utf8_len(s),
    decreases s.len(),
{
    if k < s.len() {
        assert(s.drop_last().take(k) == s.take(k));
        lemma_utf8_len_prefix_mono(s.drop_last(), k);
    } else {
        assert(s.take(k) == s);
    }
}

} // verus!
