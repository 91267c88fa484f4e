//! Joining returned grades with the grading components of a course.
use vstd::prelude::*;

use crate::data::exams::{ci_letter, ci3_at};
use crate::data::text::{
    alnum_char, chars_of, contains, contains_chars, contains_str, eq_str, is_alphanumeric,
    is_regex_digit, lower_chars, decimal_digit, lower_text, push_chars, push_str, slice_chars, string_of, to_uppercase,
    trim, trim_chars, upper_text, utf8_len, utf8_len_capped, ws_end, is_whitespace,
    lemma_ws_end_bounds, lemma_ws_start_bounds, lemma_ws_end_shift, ascii_text, ascii_to_upper,
    is_ws, ws_start, ascii_lower,
};

verus! {

/// A weighted component of a course's grading scheme.
#[derive(Debug, Clone, PartialEq)]
pub struct GradingComponent {
    pub name: String,
    /// The weight in percent, as written in the grading table (decimal digits with an
    /// optional fraction, such as `10` or `12.5`).
    pub weight_percent: String,
    pub category: String,
}

// ---------------------------------------------------------------------------
// Course names

pub open spec fn ci4_at(t: Seq<char>, i: int, a: char, b: char, c: char, d: char) -> bool {
    ci3_at(t, i, a, b, c) && i + 4 <= t.len() && ci_letter(t[i + 3], d)
}

/// The canonical subject code that starts at `i`, in any case.
pub open spec fn subject_at(t: Seq<char>, i: int) -> Option<Seq<char>> {
    if ci4_at(t, i, 'c', 'm', 's', 'c') {
        Some(seq!['C', 'M', 'S', 'C'])
    } else if ci4_at(t, i, 'c', 'o', 'm', 'm') {
        Some(seq!['C', 'O', 'M', 'M'])
    } else if ci4_at(t, i, 'm', 'a', 't', 'h') {
        Some(seq!['M', 'A', 'T', 'H'])
    } else if ci4_at(t, i, 'p', 'h', 'y', 's') {
        Some(seq!['P', 'H', 'Y', 'S'])
    } else if ci4_at(t, i, 's', 't', 'a', 't') {
        Some(seq!['S', 'T', 'A', 'T'])
    } else {
        None
    }
}

/// End of the run of decimal digits (the `regex` crate's `\d`) that starts at `i`.
pub open spec fn digits_end(t: Seq<char>, i: int) -> int
    decreases t.len() - i,
{
    if 0 <= i < t.len() && decimal_digit(t[i]) {
        digits_end(t, i + 1)
    } else {
        i
    }
}

/// A subject code, optional whitespace and a course number at `i`
/// (`(?i)(CMSC|COMM|MATH|PHYS|STAT)\s*(\d+)`): the canonical code and the number.
pub open spec fn course_code_at(t: Seq<char>, i: int) -> Option<(Seq<char>, Seq<char>)> {
    match subject_at(t, i) {
        None => None,
        Some(code) => {
            let w = ws_end(t, i + 4, t.len() as int);
            let e = digits_end(t, w);
            if e > w {
                Some((code, t.subrange(w, e)))
            } else {
                None
            }
        },
    }
}

/// The leftmost course code at or after `i`.
pub open spec fn first_course_code(t: Seq<char>, i: int) -> Option<(Seq<char>, Seq<char>)>
    decreases t.len() + 1 - i,
{
    if i < 0 || i > t.len() {
        None
    } else if course_code_at(t, i) is Some {
        course_code_at(t, i)
    } else {
        first_course_code(t, i + 1)
    }
}

/// The normalised name of a course: its first subject code and number, as `CODE NUM`
/// in capitals; a name without a code is trimmed and upper-cased.
pub open spec fn normalized_course(t: Seq<char>) -> Seq<char> {
    match first_course_code(t, 0) {
        Some((code, num)) => code + seq![' '] + num,
        None => upper_text(trim(t)),
    }
}

fn ci4(t: &[char], i: usize, a: char, b: char, c: char, d: char) -> (r: bool)
    requires
        'a' <= a <= 'z',
        'a' <= b <= 'z',
        'a' <= c <= 'z',
        'a' <= d <= 'z',
    ensures
        r == ci4_at(t@, i as int, a, b, c, d),
{
    i <= t.len() && 4 <= t.len() - i && ci_letter_x(t[i], a) && ci_letter_x(t[i + 1], b)
        && ci_letter_x(t[i + 2], c) && ci_letter_x(t[i + 3], d)
}

fn ci_letter_x(c: char, l: char) -> (r: bool)
    requires
        'a' <= l <= 'z',
    ensures
        r == ci_letter(c, l),
{
    crate::data::text::ascii_lower_code(c) == (l as u32) || (l == 's' && c == '\u{17F}')
}

fn subject_exec(t: &[char], i: usize) -> (r: Option<Vec<char>>)
    ensures
        match subject_at(t@, i as int) {
            Some(code) => r matches Some(rc) && rc@ == code,
            None => r is None,
        },
{
    if ci4(t, i, 'c', 'm', 's', 'c') {
        Some(vec!['C', 'M', 'S', 'C'])
    } else if ci4(t, i, 'c', 'o', 'm', 'm') {
        Some(vec!['C', 'O', 'M', 'M'])
    } else if ci4(t, i, 'm', 'a', 't', 'h') {
        Some(vec!['M', 'A', 'T', 'H'])
    } else if ci4(t, i, 'p', 'h', 'y', 's') {
        Some(vec!['P', 'H', 'Y', 'S'])
    } else if ci4(t, i, 's', 't', 'a', 't') {
        Some(vec!['S', 'T', 'A', 'T'])
    } else {
        None
    }
}

fn course_code_exec(t: &[char], i: usize) -> (r: Option<(Vec<char>, Vec<char>)>)
    ensures
        match course_code_at(t@, i as int) {
            Some((c, n)) => r matches Some((rc, rn)) && rc@ == c && rn@ == n,
            None => r is None,
        },
{
    let code = match subject_exec(t, i) {
        Some(c) => c,
        None => {
            return None;
        },
    };
    assert(i + 4 <= t.len());
    let mut w = i + 4;
    while w < t.len() && is_whitespace(t[w])
        invariant
            i + 4 <= w <= t@.len(),
            ws_end(t@, i + 4, t@.len() as int) == ws_end(t@, w as int, t@.len() as int),
        decreases t.len() - w,
    {
        w = w + 1;
    }
    let mut e = w;
    while e < t.len() && is_regex_digit(t[e])
        invariant
            w <= e <= t@.len(),
            digits_end(t@, w as int) == digits_end(t@, e as int),
        decreases t.len() - e,
    {
        e = e + 1;
    }
    if e > w {
        Some((code, slice_chars(t, w, e)))
    } else {
        None
    }
}

/// The normalised course name (see `normalized_course`), such as `CMSC 124` for
/// `CMSC 124 ST-4L` or `COMM 10` for `comm 10`.
pub fn normalize_course(course: &str) -> (r: String)
    ensures
        r@ == normalized_course(course@),
{
    let t = chars_of(course);
    let mut i: usize = 0;
    while i < t.len()
        invariant
            i <= t@.len(),
            t@ == course@,
            first_course_code(t@, 0) == first_course_code(t@, i as int),
        decreases t.len() - i,
    {
        match course_code_exec(&t, i) {
            Some((code, num)) => {
                let mut out = code;
                out.push(' ');
                push_chars(&mut out, &num);
                assert(out@ =~= normalized_course(course@));
                return string_of(&out);
            },
            None => {},
        }
        i = i + 1;
    }
    assert(course_code_at(t@, i as int) is None);
    assert(first_course_code(t@, i + 1) is None);
    let trimmed = trim_chars(&t);
    let ts = string_of(&trimmed);
    to_uppercase(ts.as_str())
}

// ---------------------------------------------------------------------------
// Matching a returned grade to a component

/// The first index of `comps` whose component satisfies `p`.
pub open spec fn first_component(comps: Seq<GradingComponent>, p: spec_fn(GradingComponent) -> bool, i: int) -> Option<int>
    decreases comps.len() - i,
{
    if i < 0 || i >= comps.len() {
        None
    } else if p(comps[i]) {
        Some(i)
    } else {
        first_component(comps, p, i + 1)
    }
}

/// Both texts mention the keyword.
pub open spec fn both_mention(a: Seq<char>, b: Seq<char>, k: Seq<char>) -> bool {
    contains(a, k) && contains(b, k)
}

/// First try, for lab sources: a lab component matching an exercise or a project.
pub open spec fn lab_match(c: GradingComponent, al: Seq<char>) -> bool {
    let nl = lower_text(c.name@);
    &&& (lower_text(c.category@) == "lab"@ || contains(nl, "lab"@))
    &&& (both_mention(nl, al, "exercise"@) || both_mention(nl, al, "project"@))
}

/// Second try: a shared keyword.
pub open spec fn keyword_match(c: GradingComponent, al: Seq<char>) -> bool {
    let nl = lower_text(c.name@);
    ||| both_mention(nl, al, "quiz"@)
    ||| both_mention(nl, al, "assignment"@)
    ||| both_mention(nl, al, "exam"@)
    ||| both_mention(nl, al, "exercise"@)
    ||| both_mention(nl, al, "project"@)
}

/// `[i, j)` is a maximal run of alnum_char characters of `s`.
pub open spec fn is_word_run(s: Seq<char>, i: int, j: int) -> bool {
    &&& 0 <= i < j <= s.len()
    &&& (i == 0 || !alnum_char(s[i - 1]))
    &&& (j == s.len() || !alnum_char(s[j]))
    &&& forall|k: int| i <= k < j ==> alnum_char(#[trigger] s[k])
}

/// Third try: a word of the component name longer than three bytes occurs in the
/// assignment name.
pub open spec fn word_match(c: GradingComponent, al: Seq<char>) -> bool {
    let nl = lower_text(c.name@);
    exists|i: int, j: int|
        is_word_run(nl, i, j) && utf8_len(nl.subrange(i, j)) > 3 && contains(
            al,
            #[trigger] nl.subrange(i, j),
        )
}

/// The component a returned grade belongs to: for lab sources (the source course
/// mentions `lab` or `st-4l`) first a lab component sharing `exercise` or `project`
/// with the assignment; then a component sharing one of the keywords quiz,
/// assignment, exam, exercise, project; then a component with a word of more than
/// three bytes that occurs in the assignment; finally the first component. Names are
/// compared in lower case.
pub open spec fn matched_component(course_src: Seq<char>, assignment: Seq<char>, comps: Seq<GradingComponent>) -> Option<int> {
    let al = lower_text(assignment);
    let cl = lower_text(course_src);
    let is_lab = contains(cl, "lab"@) || contains(cl, "st-4l"@);
    let first = if is_lab {
        first_component(comps, |c: GradingComponent| lab_match(c, al), 0)
    } else {
        None
    };
    if first is Some {
        first
    } else if first_component(comps, |c: GradingComponent| keyword_match(c, al), 0) is Some {
        first_component(comps, |c: GradingComponent| keyword_match(c, al), 0)
    } else if first_component(comps, |c: GradingComponent| word_match(c, al), 0) is Some {
        first_component(comps, |c: GradingComponent| word_match(c, al), 0)
    } else if comps.len() > 0 {
        Some(0)
    } else {
        None
    }
}

fn both_mention_exec(a: &[char], b: &[char], k: &str) -> (r: bool)
    ensures
        r == both_mention(a@, b@, k@),
{
    contains_str(a, k) && contains_str(b, k)
}

fn lab_match_exec(c: &GradingComponent, al: &[char]) -> (r: bool)
    ensures
        r == lab_match(*c, al@),
{
    let nl = lower_chars(&chars_of(c.name.as_str()));
    let cl = lower_chars(&chars_of(c.category.as_str()));
    (eq_str(&cl, "lab") || contains_str(&nl, "lab")) && (both_mention_exec(&nl, al, "exercise")
        || both_mention_exec(&nl, al, "project"))
}

fn keyword_match_exec(c: &GradingComponent, al: &[char]) -> (r: bool)
    ensures
        r == keyword_match(*c, al@),
{
    let nl = lower_chars(&chars_of(c.name.as_str()));
    both_mention_exec(&nl, al, "quiz") || both_mention_exec(&nl, al, "assignment")
        || both_mention_exec(&nl, al, "exam") || both_mention_exec(&nl, al, "exercise")
        || both_mention_exec(&nl, al, "project")
}

fn word_match_exec(c: &GradingComponent, al: &[char]) -> (r: bool)
    ensures
        r == word_match(*c, al@),
{
    let nl = lower_chars(&chars_of(c.name.as_str()));
    let ghost s = nl@;
    let mut i: usize = 0;
    // every maximal run that starts before `i` has been examined and rejected
    while i < nl.len()
        invariant
            i <= s.len(),
            s == nl@,
            s == lower_text(c.name@),
            forall|a: int, b: int|
                0 <= a < i && is_word_run(s, a, b) ==> !(utf8_len(s.subrange(a, b)) > 3
                    && contains(al@, #[trigger] s.subrange(a, b))),
            i == 0 || i == s.len() || !alnum_char(s[i - 1]) || !alnum_char(s[i as int]),
        decreases nl.len() - i,
    {
        if !is_alphanumeric(nl[i]) {
            i = i + 1;
            continue;
        }
        let mut j = i;
        while j < nl.len() && is_alphanumeric(nl[j])
            invariant
                i <= j <= s.len(),
                s == nl@,
                forall|k: int| i <= k < j ==> alnum_char(#[trigger] s[k]),
            decreases nl.len() - j,
        {
            j = j + 1;
        }
        assert(is_word_run(s, i as int, j as int));
        let n = utf8_len_capped(&nl, i, j, 4);
        let w = slice_chars(&nl, i, j);
        if n > 3 && contains_chars(al, &w) {
            return true;
        }
        proof {
            assert forall|a: int, b: int|
                0 <= a < j && is_word_run(s, a, b) implies !(utf8_len(s.subrange(a, b)) > 3
                && contains(al@, #[trigger] s.subrange(a, b))) by {
                if a >= i {
                    if a > i {
                        assert(alnum_char(s[a - 1]));
                    }
                    assert(a == i);
                    if b < j {
                        assert(alnum_char(s[b]));
                    } else if b > j {
                        assert(alnum_char(s[j as int]));
                    }
                }
            }
        }
        i = j;
    }
    proof {
        assert forall|a: int, b: int|
            is_word_run(s, a, b) implies !(utf8_len(s.subrange(a, b)) > 3 && contains(
            al@,
            #[trigger] s.subrange(a, b),
        )) by {
            assert(a < i);
        }
    }
    false
}

/// The grading component a returned grade belongs to (see `matched_component`).
pub fn match_grade_to_component<'a>(
    course_src: &str,
    assignment_name: &str,
    components: &'a [GradingComponent],
) -> (r: Option<&'a GradingComponent>)
    ensures
        match matched_component(course_src@, assignment_name@, components@) {
            Some(i) => r == Some(&components@[i]),
            None => r is None,
        },
{
    let al = lower_chars(&chars_of(assignment_name));
    let cl = lower_chars(&chars_of(course_src));
    let is_lab_source = contains_str(&cl, "lab") || contains_str(&cl, "st-4l");
    let ghost comps = components@;
    let ghost lab_p = |c: GradingComponent| lab_match(c, al@);
    let ghost key_p = |c: GradingComponent| keyword_match(c, al@);
    let ghost word_p = |c: GradingComponent| word_match(c, al@);
    assert(al@ == lower_text(assignment_name@));
    assert(is_lab_source == (contains(lower_text(course_src@), "lab"@) || contains(lower_text(course_src@), "st-4l"@)));
    if is_lab_source {
        let mut i: usize = 0;
        while i < components.len()
            invariant
                i <= comps.len(),
                comps == components@,
                al@ == lower_text(assignment_name@),
                is_lab_source,
                is_lab_source == (contains(lower_text(course_src@), "lab"@) || contains(lower_text(course_src@), "st-4l"@)),
                lab_p == (|c: GradingComponent| lab_match(c, al@)),
                first_component(comps, |c: GradingComponent| lab_match(c, al@), 0)
                    == first_component(comps, |c: GradingComponent| lab_match(c, al@), i as int),
            decreases components.len() - i,
        {
            if lab_match_exec(&components[i], &al) {
                assert(first_component(comps, lab_p, i as int) == Some(i as int));
                return Some(&components[i]);
            }
            i = i + 1;
        }
        assert(first_component(comps, lab_p, i as int) is None);
    }
    let mut i: usize = 0;
    while i < components.len()
        invariant
            i <= comps.len(),
            comps == components@,
            al@ == lower_text(assignment_name@),
            is_lab_source == (contains(lower_text(course_src@), "lab"@) || contains(lower_text(course_src@), "st-4l"@)),
            is_lab_source ==> first_component(comps, lab_p, 0) is None,
            lab_p == (|c: GradingComponent| lab_match(c, al@)),
            key_p == (|c: GradingComponent| keyword_match(c, al@)),
            first_component(comps, |c: GradingComponent| keyword_match(c, al@), 0)
                == first_component(comps, |c: GradingComponent| keyword_match(c, al@), i as int),
        decreases components.len() - i,
    {
        if keyword_match_exec(&components[i], &al) {
            assert(first_component(comps, key_p, i as int) == Some(i as int));
            return Some(&components[i]);
        }
        i = i + 1;
    }
    assert(first_component(comps, key_p, i as int) is None);
    let mut i: usize = 0;
    while i < components.len()
        invariant
            i <= comps.len(),
            comps == components@,
            al@ == lower_text(assignment_name@),
            is_lab_source == (contains(lower_text(course_src@), "lab"@) || contains(lower_text(course_src@), "st-4l"@)),
            is_lab_source ==> first_component(comps, lab_p, 0) is None,
            first_component(comps, key_p, 0) is None,
            lab_p == (|c: GradingComponent| lab_match(c, al@)),
            key_p == (|c: GradingComponent| keyword_match(c, al@)),
            word_p == (|c: GradingComponent| word_match(c, al@)),
            first_component(comps, |c: GradingComponent| word_match(c, al@), 0)
                == first_component(comps, |c: GradingComponent| word_match(c, al@), i as int),
        decreases components.len() - i,
    {
        if word_match_exec(&components[i], &al) {
            assert(first_component(comps, word_p, i as int) == Some(i as int));
            return Some(&components[i]);
        }
        i = i + 1;
    }
    assert(first_component(comps, word_p, i as int) is None);
    if components.len() > 0 {
        Some(&components[0])
    } else {
        None
    }
}

proof fn lemma_first_component(comps: Seq<GradingComponent>, p: spec_fn(GradingComponent) -> bool, i: int)
    requires
        0 <= i,
    ensures
        first_component(comps, p, i) matches Some(k) ==> i <= k < comps.len() && p(comps[k])
            && forall|j: int| i <= j < k ==> !p(#[trigger] comps[j]),
        first_component(comps, p, i) is None <==> forall|k: int| i <= k < comps.len() ==> !p(#[trigger] comps[k]),
    decreases comps.len() - i,
{
    if i < comps.len() {
        lemma_first_component(comps, p, i + 1);
        if !p(comps[i]) && forall|k: int| i + 1 <= k < comps.len() ==> !p(#[trigger] comps[k]) {
            assert forall|k: int| i <= k < comps.len() implies !p(#[trigger] comps[k]) by {}
        }
    }
}

/// A returned grade finds a component exactly when the course has any; the one found
/// is one of them, and when neither the lab rule, a keyword nor a shared word picks
/// one, it is the first.
pub proof fn law_grade_match(course_src: Seq<char>, assignment: Seq<char>, comps: Seq<GradingComponent>)
    ensures
        matched_component(course_src, assignment, comps) is None <==> comps.len() == 0,
        matched_component(course_src, assignment, comps) matches Some(i) ==> 0 <= i < comps.len(),
        comps.len() > 0 && (forall|k: int|
            0 <= k < comps.len() ==> {
                let al = lower_text(assignment);
                &&& !lab_match(#[trigger] comps[k], al)
                &&& !keyword_match(comps[k], al)
                &&& !word_match(comps[k], al)
            }) ==> matched_component(course_src, assignment, comps) == Some(0int),
{
    let al = lower_text(assignment);
    lemma_first_component(comps, |c: GradingComponent| lab_match(c, al), 0);
    lemma_first_component(comps, |c: GradingComponent| keyword_match(c, al), 0);
    lemma_first_component(comps, |c: GradingComponent| word_match(c, al), 0);
}

// ---------------------------------------------------------------------------
// Normalising twice

proof fn lemma_upper_char(c: char)
    requires
        (c as u32) < 0x80,
    ensures
        (ascii_to_upper(c) as u32) < 0x80,
        is_ws(ascii_to_upper(c)) == is_ws(c),
        ascii_lower(ascii_to_upper(c)) == ascii_lower(c),
        decimal_digit(ascii_to_upper(c)) == decimal_digit(c),
        ascii_to_upper(ascii_to_upper(c)) == ascii_to_upper(c),
{
    if 'a' <= c <= 'z' {
        let u = ((c as u32) - 32) as char;
        assert(u as u32 == (c as u32) - 32);
    }
}

proof fn lemma_digits_run(t: Seq<char>, i: int)
    requires
        0 <= i <= t.len(),
        forall|k: int| i <= k < t.len() ==> decimal_digit(#[trigger] t[k]),
    ensures
        digits_end(t, i) == t.len(),
    decreases t.len() - i,
{
    if i < t.len() {
        lemma_digits_run(t, i + 1);
    }
}

proof fn lemma_digits_end_bounds(t: Seq<char>, i: int)
    requires
        0 <= i <= t.len(),
    ensures
        i <= digits_end(t, i) <= t.len(),
        forall|k: int| i <= k < digits_end(t, i) ==> decimal_digit(#[trigger] t[k]),
    decreases t.len() - i,
{
    if i < t.len() && decimal_digit(t[i]) {
        lemma_digits_end_bounds(t, i + 1);
    }
}

proof fn lemma_first_course_code(t: Seq<char>, i: int)
    requires
        0 <= i,
    ensures
        first_course_code(t, i) matches Some(x) ==> exists|j: int| i <= j <= t.len() && course_code_at(t, j) == Some(x),
        first_course_code(t, i) is None <==> forall|j: int| i <= j <= t.len() ==> (#[trigger] course_code_at(t, j)) is None,
    decreases t.len() + 1 - i,
{
    if i <= t.len() {
        lemma_first_course_code(t, i + 1);
        if course_code_at(t, i) is None && forall|j: int| i + 1 <= j <= t.len() ==> (#[trigger] course_code_at(t, j)) is None {
            assert forall|j: int| i <= j <= t.len() implies (#[trigger] course_code_at(t, j)) is None by {}
        }
    } else {
        assert forall|j: int| i <= j <= t.len() implies (#[trigger] course_code_at(t, j)) is None by {}
    }
}

/// A normalised name with a course code normalises to itself.
proof fn lemma_code_name_fixed(t: Seq<char>)
    requires
        first_course_code(t, 0) is Some,
    ensures
        normalized_course(normalized_course(t)) == normalized_course(t),
{
    lemma_first_course_code(t, 0);
    let (c, n) = first_course_code(t, 0).unwrap();
    let j = choose|j: int| 0 <= j <= t.len() && course_code_at(t, j) == Some((c, n));
    let w = ws_end(t, j + 4, t.len() as int);
    lemma_ws_end_bounds(t, j + 4, t.len() as int);
    lemma_digits_end_bounds(t, w);
    let r = c + seq![' '] + n;
    assert(r == normalized_course(t));
    assert(n == t.subrange(w, digits_end(t, w)));
    assert(n.len() > 0);
    assert forall|k: int| 5 <= k < r.len() implies decimal_digit(#[trigger] r[k]) by {
        assert(r[k] == n[k - 5]);
        assert(n[k - 5] == t[w + k - 5]);
    }
    assert(decimal_digit(r[5]));
    assert(!is_ws(r[5]));
    assert(ws_end(r, 5, r.len() as int) == 5);
    assert(ws_end(r, 4, r.len() as int) == 5);
    lemma_digits_run(r, 5);
    assert(r.subrange(0, 4) =~= c);
    assert(subject_at(r, 0) == Some(c));
    assert(r.subrange(5, r.len() as int) =~= n);
    assert(course_code_at(r, 0) == Some((c, n)));
}

proof fn lemma_ws_end_stops(s: Seq<char>, i: int, h1: int, h2: int)
    requires
        i <= h1 <= h2 <= s.len(),
        ws_end(s, i, h1) < h1,
    ensures
        ws_end(s, i, h2) == ws_end(s, i, h1),
    decreases h1 - i,
{
    if i < h1 && is_ws(s[i]) {
        lemma_ws_end_stops(s, i + 1, h1, h2);
    }
}

proof fn lemma_ws_end_upper(u: Seq<char>, v: Seq<char>, i: int)
    requires
        u.len() == v.len(),
        0 <= i <= u.len(),
        forall|k: int| 0 <= k < u.len() ==> is_ws(#[trigger] v[k]) == is_ws(u[k]),
    ensures
        ws_end(v, i, v.len() as int) == ws_end(u, i, u.len() as int),
    decreases u.len() - i,
{
    if i < u.len() {
        lemma_ws_end_upper(u, v, i + 1);
    }
}

/// An ASCII name without a course code normalises, upper-cased and trimmed, to a name
/// that normalises to itself.
proof fn lemma_plain_name_fixed(t: Seq<char>)
    requires
        first_course_code(t, 0) is None,
        ascii_text(t),
    ensures
        normalized_course(normalized_course(t)) == normalized_course(t),
{
    let n = t.len() as int;
    let a = ws_end(t, 0, n);
    lemma_ws_end_bounds(t, 0, n);
    let b = ws_start(t, a, n);
    lemma_ws_start_bounds(t, a, n);
    let u = trim(t);
    assert(u == t.subrange(a, b));
    assert(ascii_text(u));
    let v = upper_text(u);
    assert(v == u.map_values(|c: char| ascii_to_upper(c)));
    assert(v == normalized_course(t));
    assert forall|k: int| 0 <= k < u.len() implies {
        &&& is_ws(#[trigger] v[k]) == is_ws(u[k])
        &&& ascii_lower(v[k]) == ascii_lower(u[k])
        &&& decimal_digit(v[k]) == decimal_digit(u[k])
        &&& (v[k] as u32) < 0x80
        &&& ascii_to_upper(v[k]) == v[k]
        &&& u[k] == t[a + k]
    } by {
        lemma_upper_char(u[k]);
    }
    // v is its own trim and its own upper-casing
    assert(ascii_text(v));
    if v.len() > 0 {
        assert(!is_ws(u[0]));
        assert(!is_ws(u[u.len() - 1]));
    }
    assert(ws_end(v, 0, v.len() as int) == 0);
    assert(ws_start(v, 0, v.len() as int) == v.len());
    assert(trim(v) =~= v);
    assert(upper_text(v) =~= v);
    // v holds no course code
    lemma_first_course_code(t, 0);
    assert forall|i: int| 0 <= i <= v.len() implies (#[trigger] course_code_at(v, i)) is None by {
        if course_code_at(v, i) is Some {
            let sc = subject_at(v, i).unwrap();
            assert(i + 4 <= v.len());
            assert(ci_letter(v[i], 'c') == ci_letter(t[a + i], 'c'));
            assert(subject_at(t, a + i) == Some(sc));
            let w = ws_end(v, i + 4, v.len() as int);
            lemma_ws_end_bounds(v, i + 4, v.len() as int);
            assert(w < v.len());
            lemma_ws_end_upper(u, v, i + 4);
            lemma_ws_end_shift(t, a, b, i + 4);
            assert(t.subrange(a, b) == u);
            let wt = ws_end(t, a + i + 4, b);
            assert(wt == w + a);
            lemma_ws_end_stops(t, a + i + 4, b, n);
            assert(ws_end(t, a + i + 4, n) == a + w);
            assert(decimal_digit(v[w]));
            assert(decimal_digit(t[a + w]));
            assert(a + w < n);
            lemma_digits_end_bounds(t, a + w + 1);
            assert(digits_end(t, a + w) > a + w);
            assert(course_code_at(t, a + i) is Some);
            assert(false);
        }
    }
    lemma_first_course_code(v, 0);
}

/// Normalising a course name twice gives what normalising it once gives, for every
/// name with a course code and for every ASCII name.
pub proof fn law_normalize_idempotent(t: Seq<char>)
    requires
        first_course_code(t, 0) is Some || ascii_text(t),
    ensures
        normalized_course(normalized_course(t)) == normalized_course(t),
{
    if first_course_code(t, 0) is Some {
        lemma_code_name_fixed(t);
    } else {
        lemma_plain_name_fixed(t);
    }
}

/// The lower-cased component name and the lower-cased assignment both mention one of
/// the keywords quiz, assignment, exam, exercise and project.
pub open spec fn shares_grade_keyword(c: GradingComponent, assignment: Seq<char>) -> bool {
    let n = lower_text(c.name@);
    let a = lower_text(assignment);
    ||| contains(n, "quiz"@) && contains(a, "quiz"@)
    ||| contains(n, "assignment"@) && contains(a, "assignment"@)
    ||| contains(n, "exam"@) && contains(a, "exam"@)
    ||| contains(n, "exercise"@) && contains(a, "exercise"@)
    ||| contains(n, "project"@) && contains(a, "project"@)
}

/// Outside lab courses, a returned grade goes to the first component that shares one
/// of the keywords quiz, assignment, exam, exercise and project with the assignment,
/// whenever some component does: an exam goes to a component named for exams, not to
/// the fallback first component.
pub proof fn law_keyword_match(course_src: Seq<char>, assignment: Seq<char>, comps: Seq<GradingComponent>)
    requires
        !contains(lower_text(course_src), "lab"@),
        !contains(lower_text(course_src), "st-4l"@),
        exists|k: int| 0 <= k < comps.len() && shares_grade_keyword(#[trigger] comps[k], assignment),
    ensures
        matched_component(course_src, assignment, comps) matches Some(i) && 0 <= i < comps.len()
            && shares_grade_keyword(comps[i], assignment) && forall|j: int|
            0 <= j < i ==> !shares_grade_keyword(#[trigger] comps[j], assignment),
{
    let al = lower_text(assignment);
    let p = |c: GradingComponent| keyword_match(c, al);
    lemma_first_component(comps, p, 0);
    assert forall|k: int| 0 <= k < comps.len() implies p(#[trigger] comps[k]) == shares_grade_keyword(
        comps[k],
        assignment,
    ) by {}
}

proof fn lemma_digits_end_exact(t: Seq<char>, i: int, j: int)
    requires
        0 <= i <= j <= t.len(),
        forall|k: int| i <= k < j ==> decimal_digit(#[trigger] t[k]),
        j == t.len() || !decimal_digit(t[j]),
    ensures
        digits_end(t, i) == j,
    decreases j - i,
{
    if i < j {
        lemma_digits_end_exact(t, i + 1, j);
    }
}

/// A name that starts with a subject code (CMSC, COMM, MATH, PHYS or STAT, in any
/// case), a space and a course number normalises to the upper-case code, one space
/// and the number, whatever follows the number.
pub proof fn law_course_code_prefix(t: Seq<char>, code: Seq<char>, digits: Seq<char>, rest: Seq<char>)
    requires
        code == seq!['C', 'M', 'S', 'C'] || code == seq!['C', 'O', 'M', 'M'] || code == seq!['M', 'A', 'T', 'H']
            || code == seq!['P', 'H', 'Y', 'S'] || code == seq!['S', 'T', 'A', 'T'],
        t.len() == 4,
        forall|k: int| 0 <= k < 4 ==> ascii_lower(#[trigger] t[k]) == ascii_lower(code[k]),
        digits.len() > 0,
        forall|k: int| 0 <= k < digits.len() ==> decimal_digit(#[trigger] digits[k]),
        rest.len() == 0 || !decimal_digit(rest[0]),
    ensures
        normalized_course(t + seq![' '] + digits + rest) == code + seq![' '] + digits,
{
    let s = t + seq![' '] + digits + rest;
    let e: int = 5 + digits.len() as int;
    assert forall|k: int| 0 <= k < 4 implies s[k] == #[trigger] t[k] by {}
    assert(ascii_lower(t[0]) == ascii_lower(code[0]));
    assert(ascii_lower(t[1]) == ascii_lower(code[1]));
    assert(ascii_lower(t[2]) == ascii_lower(code[2]));
    assert(ascii_lower(t[3]) == ascii_lower(code[3]));
    assert(subject_at(s, 0) == Some(code));
    assert(s[4] == ' ');
    assert(s[5] == digits[0]);
    assert(!is_ws(s[5]));
    assert(ws_end(s, 5, s.len() as int) == 5);
    assert(ws_end(s, 4, s.len() as int) == 5);
    assert forall|k: int| 5 <= k < e implies decimal_digit(#[trigger] s[k]) by {
        assert(s[k] == digits[k - 5]);
    }
    if rest.len() > 0 {
        assert(s[e] == rest[0]);
    }
    lemma_digits_end_exact(s, 5, e);
    assert(s.subrange(5, e) =~= digits);
    assert(course_code_at(s, 0) == Some((code, digits)));
}

} // verus!
