//! The plausibility check that decides whether decoded text is worth translating.
use vstd::prelude::*;
use crate::text::{chars_of, contains_chars, seq_contains};

verus! {

/// Unicode `White_Space`, the set that `char::is_whitespace` tests.
pub open spec fn is_ws(c: char) -> bool {
    let u = c as u32;
    (9 <= u <= 13) || u == 32 || u == 0x85 || u == 0xa0 || u == 0x1680 || (0x2000 <= u <= 0x200a)
        || u == 0x2028 || u == 0x2029 || u == 0x202f || u == 0x205f || u == 0x3000
}

/// The general category `Cc`, the set that `char::is_control` tests.
pub open spec fn is_control(c: char) -> bool {
    let u = c as u32;
    u <= 0x1f || (0x7f <= u <= 0x9f)
}

pub open spec fn is_ascii_upper(c: char) -> bool {
    'A' <= c <= 'Z'
}

pub open spec fn is_ascii_alnum(c: char) -> bool {
    ('0' <= c <= '9') || ('a' <= c <= 'z') || ('A' <= c <= 'Z')
}

/// The index of the first character at or after `i` that is not white space.
pub open spec fn lead(s: Seq<char>, i: int) -> int
    decreases s.len() - i,
{
    if 0 <= i < s.len() && is_ws(s[i]) {
        lead(s, i + 1)
    } else {
        i
    }
}

/// The end of `s[lo..j]` once trailing white space is dropped.
pub open spec fn trail(s: Seq<char>, j: int, lo: int) -> int
    decreases j - lo,
{
    if lo < j && is_ws(s[j - 1]) {
        trail(s, j - 1, lo)
    } else {
        j
    }
}

/// `s` without leading and trailing white space, as `str::trim` gives it.
pub open spec fn trimmed(s: Seq<char>) -> Seq<char> {
    s.subrange(lead(s, 0), trail(s, s.len() as int, lead(s, 0)))
}

/// Identifier shape: at least three ASCII letters or digits, an upper-case letter from the
/// third character on, and not all upper-case.
pub open spec fn camel_case(t: Seq<char>) -> bool {
    &&& t.len() >= 3
    &&& forall|i: int| 0 <= i < t.len() ==> is_ascii_alnum(#[trigger] t[i])
    &&& exists|i: int| 2 <= i < t.len() && is_ascii_upper(#[trigger] t[i])
    &&& exists|i: int| 0 <= i < t.len() && !is_ascii_upper(#[trigger] t[i])
}

/// Identifier shape: no space and at least one underscore.
pub open spec fn snake_case(t: Seq<char>) -> bool {
    !t.contains(' ') && t.contains('_')
}

/// Whether already-trimmed text passes the plausibility rules.
pub open spec fn trimmed_text_ok(t: Seq<char>) -> bool {
    &&& t.len() > 0
    &&& t != seq!['<', 'p', '>']
    &&& (seq_contains(t, seq!['O', 'r', 'c', 'a', 'x']) || seq_contains(
        t,
        seq!['<', 'A', 'l', 'i', 'a', 's'],
    ) || (!camel_case(t) && !snake_case(t) && forall|i: int|
        0 <= i < t.len() ==> !is_control(#[trigger] t[i]) || is_ws(t[i])))
}

/// Whether text is plausible translatable text.
pub open spec fn text_ok(s: Seq<char>) -> bool {
    trimmed_text_ok(trimmed(s))
}

fn ws(c: char) -> (r: bool)
    ensures
        r == is_ws(c),
{
    let u = c as u32;
    (9 <= u && u <= 13) || u == 32 || u == 0x85 || u == 0xa0 || u == 0x1680 || (0x2000 <= u && u
        <= 0x200a) || u == 0x2028 || u == 0x2029 || u == 0x202f || u == 0x205f || u == 0x3000
}

fn trim_chars(s: &Vec<char>) -> (r: Vec<char>)
    ensures
        r@ == trimmed(s@),
{
    let mut a: usize = 0;
    while a < s.len() && ws(s[a])
        invariant
            a <= s@.len(),
            lead(s@, 0) == lead(s@, a as int),
        decreases s@.len() - a,
    {
        a = a + 1;
    }
    let mut b: usize = s.len();
    while b > a && ws(s[b - 1])
        invariant
            a <= b <= s@.len(),
            lead(s@, 0) == a,
            trail(s@, s@.len() as int, a as int) == trail(s@, b as int, a as int),
        decreases b - a,
    {
        b = b - 1;
    }
    let mut r: Vec<char> = Vec::new();
    let mut i: usize = a;
    while i < b
        invariant
            a <= i <= b <= s@.len(),
            r@ == s@.subrange(a as int, i as int),
        decreases b - i,
    {
        r.push(s[i]);
        i = i + 1;
        assert(r@ =~= s@.subrange(a as int, i as int));
    }
    r
}

/// Whether text has the camel-case identifier shape (see `camel_case`).
pub fn is_camel_case(text: &str) -> (r: bool)
    ensures
        r == camel_case(text@),
{
    let t = chars_of(text);
    camel_case_chars(&t)
}

fn camel_case_chars(t: &Vec<char>) -> (r: bool)
    ensures
        r == camel_case(t@),
{
    if t.len() < 3 {
        return false;
    }
    let mut i: usize = 0;
    let mut upper_late = false;
    let mut some_not_upper = false;
    while i < t.len()
        invariant
            i <= t@.len(),
            forall|k: int| 0 <= k < i ==> is_ascii_alnum(#[trigger] t@[k]),
            upper_late == exists|k: int| 2 <= k < i && is_ascii_upper(#[trigger] t@[k]),
            some_not_upper == exists|k: int| 0 <= k < i && !is_ascii_upper(#[trigger] t@[k]),
        decreases t@.len() - i,
    {
        let c = t[i];
        let alnum = ('0' <= c && c <= '9') || ('a' <= c && c <= 'z') || ('A' <= c && c <= 'Z');
        if !alnum {
            assert(!is_ascii_alnum(t@[i as int]));
            return false;
        }
        let up = 'A' <= c && c <= 'Z';
        if up && i >= 2 {
            upper_late = true;
        }
        if !up {
            some_not_upper = true;
        }
        i = i + 1;
    }
    upper_late && some_not_upper
}

/// Whether text has the snake-case identifier shape (see `snake_case`).
pub fn is_snake_case(text: &str) -> (r: bool)
    ensures
        r == snake_case(text@),
{
    let t = chars_of(text);
    snake_case_chars(&t)
}

fn snake_case_chars(t: &Vec<char>) -> (r: bool)
    ensures
        r == snake_case(t@),
{
    let mut i: usize = 0;
    let mut space = false;
    let mut under = false;
    while i < t.len()
        invariant
            i <= t@.len(),
            space == exists|k: int| 0 <= k < i && t@[k] == ' ',
            under == exists|k: int| 0 <= k < i && t@[k] == '_',
        decreases t@.len() - i,
    {
        if t[i] == ' ' {
            space = true;
        }
        if t[i] == '_' {
            under = true;
        }
        i = i + 1;
    }
    !space && under
}

fn is_p_tag(t: &Vec<char>) -> (r: bool)
    ensures
        r == (t@ == seq!['<', 'p', '>']),
{
    if t.len() == 3 && t[0] == '<' && t[1] == 'p' && t[2] == '>' {
        assert(t@ =~= seq!['<', 'p', '>']);
        true
    } else {
        false
    }
}

/// Whether `text` is plausible translatable text: not blank, not a denied literal, and either
/// holding an always-accepted marker or not shaped like an identifier and free of control
/// characters other than white space.
pub fn is_valid_string(text: &str) -> (r: bool)
    ensures
        r == text_ok(text@),
{
    let all = chars_of(text);
    let t = trim_chars(&all);
    if t.len() == 0 {
        return false;
    }
    if is_p_tag(&t) {
        return false;
    }
    let orcax = vec!['O', 'r', 'c', 'a', 'x'];
    let alias = vec!['<', 'A', 'l', 'i', 'a', 's'];
    assert(orcax@ =~= seq!['O', 'r', 'c', 'a', 'x']);
    assert(alias@ =~= seq!['<', 'A', 'l', 'i', 'a', 's']);
    if contains_chars(t.as_slice(), orcax.as_slice()) || contains_chars(
        t.as_slice(),
        alias.as_slice(),
    ) {
        return true;
    }
    if camel_case_chars(&t) || snake_case_chars(&t) {
        return false;
    }
    let mut i: usize = 0;
    while i < t.len()
        invariant
            i <= t@.len(),
            t@ == trimmed(text@),
            t@.len() > 0,
            t@ != seq!['<', 'p', '>'],
            !seq_contains(t@, seq!['O', 'r', 'c', 'a', 'x']),
            !seq_contains(t@, seq!['<', 'A', 'l', 'i', 'a', 's']),
            !camel_case(t@),
            !snake_case(t@),
            forall|k: int| 0 <= k < i ==> !is_control(#[trigger] t@[k]) || is_ws(t@[k]),
        decreases t@.len() - i,
    {
        let u = t[i] as u32;
        let control = u <= 0x1f || (0x7f <= u && u <= 0x9f);
        if control && !ws(t[i]) {
            assert(is_control(t@[i as int]) && !is_ws(t@[i as int]));
            return false;
        }
        i = i + 1;
    }
    true
}

} // verus!
