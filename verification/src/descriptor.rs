//! The descriptor parser: finds the value that a line-oriented `key = value`
//! text gives to a key.
//!
//! A line ends at a newline. Whatever follows the first `#` or `//` of a
//! line is a comment. The text before the first `=` of what remains is the
//! key, compared without regard to ASCII case; the text after it is the
//! value, which may stand in single or double quotes. The first line that
//! names the key decides.

use vstd::prelude::*;
use vstd::slice::slice_subrange;
use crate::chars::{to_chars, to_string};
use crate::text::{
    eq_ignore_ascii_case, equal_ignoring_ascii_case, find_char, index_of, lemma_index_of,
    lemma_index_of_is, lemma_trimmed_within, trim, trimmed,
};

verus! {

/// Whether a comment marker (`#` or `//`) begins at position `i` of `s`.
pub open spec fn is_comment_at(s: Seq<char>, i: int) -> bool {
    &&& 0 <= i < s.len()
    &&& (s[i] == '#' || (i + 1 < s.len() && s[i] == '/' && s[i + 1] == '/'))
}

/// The position of the leftmost comment marker of `s`; the length of `s`
/// when it holds none.
pub open spec fn comment_start(s: Seq<char>) -> nat
    decreases s.len(),
{
    if s.len() == 0 || is_comment_at(s, 0) {
        0
    } else {
        1 + comment_start(s.drop_first())
    }
}

/// Whether `c` is one of the two quote characters.
pub open spec fn is_quote(c: char) -> bool {
    c == '"' || c == '\''
}

/// `s` without one trailing comma, if it ends with one.
pub open spec fn without_trailing_comma(s: Seq<char>) -> Seq<char> {
    if s.len() > 0 && s.last() == ',' {
        s.drop_last()
    } else {
        s
    }
}

/// The value of an unquoted candidate: trimmed, relieved of one trailing
/// comma, and trimmed again.
pub open spec fn bare_value(val: Seq<char>) -> Seq<char> {
    trimmed(without_trailing_comma(trimmed(val)))
}

/// The value that the trimmed right-hand side `val` of a line stands for.
///
/// A candidate enclosed in a pair of equal quote characters loses exactly
/// that pair. One that opens with a quote but does not end with it runs up
/// to the next occurrence of that quote, if there is one. Every other
/// candidate is a bare value.
pub open spec fn field_value(val: Seq<char>) -> Seq<char> {
    if val.len() >= 2 && is_quote(val[0]) && val.last() == val[0] {
        val.subrange(1, val.len() - 1)
    } else if val.len() >= 1 && is_quote(val[0]) && index_of(val.skip(1), val[0]) < val.len() - 1 {
        val.skip(1).take(index_of(val.skip(1), val[0]) as int)
    } else {
        bare_value(val)
    }
}

/// What remains of a line once its comment and the white space around the
/// rest are gone.
pub open spec fn line_body(line: Seq<char>) -> Seq<char> {
    trimmed(line.take(comment_start(line) as int))
}

/// The value that a single line gives to `key`, if the line names `key`.
pub open spec fn line_value(line: Seq<char>, key: Seq<char>) -> Option<Seq<char>> {
    let body = line_body(line);
    let eq = index_of(body, '=') as int;
    if eq < body.len() && eq_ignore_ascii_case(trimmed(body.take(eq)), key) {
        Some(field_value(trimmed(body.skip(eq + 1))))
    } else {
        None
    }
}

/// The value that `content` gives to `key`: that of its first line that
/// names `key`, or nothing when no line does.
pub open spec fn extracted(content: Seq<char>, key: Seq<char>) -> Option<Seq<char>>
    decreases content.len(),
{
    let n = index_of(content, '\n') as int;
    match line_value(content.take(n), key) {
        Some(v) => Some(v),
        None => if n < content.len() {
            extracted(content.skip(n + 1), key)
        } else {
            None
        },
    }
}

/// `comment_start(s)` is the one position at which a comment marker first
/// begins.
pub proof fn lemma_comment_start(s: Seq<char>)
    ensures
        comment_start(s) <= s.len(),
        comment_start(s) < s.len() ==> is_comment_at(s, comment_start(s) as int),
        forall|j: int| 0 <= j < comment_start(s) ==> !is_comment_at(s, j),
    decreases s.len(),
{
    if s.len() == 0 || is_comment_at(s, 0) {
    } else {
        let t = s.drop_first();
        lemma_comment_start(t);
        assert forall|j: int| 0 <= j < s.len() implies is_comment_at(s, j + 1) == is_comment_at(
            t,
            j,
        ) by {
            if j < t.len() {
                assert(t[j] == s[j + 1]);
            }
            if j + 1 < t.len() {
                assert(t[j + 1] == s[j + 2]);
            }
        }
        assert forall|j: int| 0 <= j < comment_start(s) implies !is_comment_at(s, j) by {
            if j > 0 {
                assert(is_comment_at(s, (j - 1) + 1) == is_comment_at(t, j - 1));
            }
        }
        let k = comment_start(t) as int;
        if k < t.len() {
            assert(is_comment_at(s, k + 1) == is_comment_at(t, k));
        }
    }
}

/// A position at which a comment marker begins, with none beginning before
/// it, is `comment_start(s)`; so is the length of `s` when none begins
/// anywhere.
pub proof fn lemma_comment_start_is(s: Seq<char>, i: int)
    requires
        0 <= i <= s.len(),
        i < s.len() ==> is_comment_at(s, i),
        forall|j: int| 0 <= j < i ==> !is_comment_at(s, j),
    ensures
        comment_start(s) == i,
{
    lemma_comment_start(s);
    let k = comment_start(s) as int;
    if k < i {
        assert(!is_comment_at(s, k));
    } else if k > i {
        assert(!is_comment_at(s, i));
    }
}

/// The position of the leftmost comment marker of `s`, or the length of `s`
/// if it holds none.
pub fn find_comment(s: &[char]) -> (i: usize)
    ensures
        i == comment_start(s@),
{
    let mut i: usize = 0;
    while i < s.len() && !(s[i] == '#' || (i + 1 < s.len() && s[i] == '/' && s[i + 1] == '/'))
        invariant
            i <= s.len(),
            forall|j: int| 0 <= j < i ==> !is_comment_at(s@, j),
        decreases s.len() - i,
    {
        i = i + 1;
    }
    proof {
        lemma_comment_start_is(s@, i as int);
    }
    i
}

/// The bare value of an unquoted candidate.
pub fn parse_bare<'a>(val: &'a [char]) -> (r: &'a [char])
    ensures
        r@ == bare_value(val@),
{
    let t = trim(val);
    let n = t.len();
    if n > 0 && t[n - 1] == ',' {
        proof {
            assert(t@.subrange(0, n - 1) =~= t@.drop_last());
        }
        trim(slice_subrange(t, 0, n - 1))
    } else {
        trim(t)
    }
}

/// The value that the trimmed right-hand side `val` of a line stands for.
pub fn parse_value<'a>(val: &'a [char]) -> (r: &'a [char])
    ensures
        r@ == field_value(val@),
{
    let n = val.len();
    if n >= 1 && (val[0] == '"' || val[0] == '\'') {
        if n >= 2 && val[n - 1] == val[0] {
            return slice_subrange(val, 1, n - 1);
        }
        let rest = slice_subrange(val, 1, n);
        proof {
            assert(rest@ =~= val@.skip(1));
        }
        let end = find_char(rest, val[0]);
        if end < rest.len() {
            proof {
                assert(rest@.subrange(0, end as int) =~= rest@.take(end as int));
            }
            return slice_subrange(rest, 0, end);
        }
    }
    parse_bare(val)
}

/// The value that `line` gives to `key`, if the line names `key`.
pub fn parse_line<'a>(line: &'a [char], key: &[char]) -> (r: Option<&'a [char]>)
    ensures
        match r {
            Some(v) => line_value(line@, key@) == Some(v@),
            None => line_value(line@, key@) is None,
        },
{
    let cut = find_comment(line);
    proof {
        lemma_comment_start(line@);
        assert(line@.subrange(0, cut as int) =~= line@.take(cut as int));
    }
    let body = trim(slice_subrange(line, 0, cut));
    let eq = find_char(body, '=');
    if eq >= body.len() {
        return None;
    }
    proof {
        assert(body@.subrange(0, eq as int) =~= body@.take(eq as int));
        assert(body@.subrange(eq + 1, body@.len() as int) =~= body@.skip(eq + 1));
    }
    let left = trim(slice_subrange(body, 0, eq));
    if !equal_ignoring_ascii_case(left, key) {
        return None;
    }
    let right = trim(slice_subrange(body, eq + 1, body.len()));
    Some(parse_value(right))
}

/// The value that the descriptor text `content` gives to `key`.
///
/// Returns the value of the first line that names `key`, and nothing when
/// no line does. Every text is accepted; one without any `=` gives nothing.
pub fn extract_value(content: &str, key: &str) -> (r: Option<String>)
    ensures
        match r {
            Some(v) => extracted(content@, key@) == Some(v@),
            None => extracted(content@, key@) is None,
        },
        !content@.contains('=') ==> r is None,
{
    proof {
        if !content@.contains('=') {
            lemma_no_equals_no_value(content@, key@);
        }
    }
    let text = to_chars(content);
    let wanted = to_chars(key);
    let mut rest: &[char] = text.as_slice();
    loop
        invariant
            wanted@ == key@,
            extracted(rest@, key@) == extracted(content@, key@),
            !content@.contains('=') ==> extracted(content@, key@) is None,
        decreases rest@.len(),
    {
        let n = find_char(rest, '\n');
        proof {
            lemma_index_of(rest@, '\n');
            assert(rest@.subrange(0, n as int) =~= rest@.take(n as int));
        }
        if let Some(v) = parse_line(slice_subrange(rest, 0, n), wanted.as_slice()) {
            return Some(to_string(v));
        }
        if n >= rest.len() {
            return None;
        }
        proof {
            assert(rest@.subrange(n + 1, rest@.len() as int) =~= rest@.skip(n + 1));
        }
        rest = slice_subrange(rest, n + 1, rest.len());
    }
}

/// A text without any `=` gives no key a value.
pub proof fn lemma_no_equals_no_value(content: Seq<char>, key: Seq<char>)
    requires
        !content.contains('='),
    ensures
        extracted(content, key) is None,
    decreases content.len(),
{
    let n = index_of(content, '\n') as int;
    lemma_index_of(content, '\n');
    let line = content.take(n);
    lemma_comment_start(line);
    let code = line.take(comment_start(line) as int);
    lemma_trimmed_within(code);
    let body = line_body(line);
    assert forall|j: int| 0 <= j < body.len() implies body[j] != '=' by {
        let k = choose|k: int| 0 <= k < code.len() && code[k] == body[j];
        assert(content[k] == body[j]);
        assert(content.contains(content[k]));
    }
    lemma_index_of_is(body, '=', body.len() as int);
    if n < content.len() {
        let rest = content.skip(n + 1);
        assert forall|j: int| 0 <= j < rest.len() implies rest[j] != '=' by {
            assert(content.contains(content[n + 1 + j]));
        }
        lemma_no_equals_no_value(rest, key);
    }
}

/// Two keys that differ only in the case of ASCII letters name the same
/// lines.
pub proof fn lemma_line_value_ignores_key_case(line: Seq<char>, a: Seq<char>, b: Seq<char>)
    requires
        eq_ignore_ascii_case(a, b),
    ensures
        line_value(line, a) == line_value(line, b),
{
    let body = line_body(line);
    let left = trimmed(body.take(index_of(body, '=') as int));
    if eq_ignore_ascii_case(left, a) {
        assert(eq_ignore_ascii_case(left, b));
    }
    if eq_ignore_ascii_case(left, b) {
        assert(eq_ignore_ascii_case(left, a));
    }
}

/// The key is matched without regard to the case of ASCII letters: two keys
/// that differ only in that case are given the same value by every text.
pub proof fn lemma_key_case_insensitive(content: Seq<char>, a: Seq<char>, b: Seq<char>)
    requires
        eq_ignore_ascii_case(a, b),
    ensures
        extracted(content, a) == extracted(content, b),
    decreases content.len(),
{
    let n = index_of(content, '\n') as int;
    lemma_index_of(content, '\n');
    lemma_line_value_ignores_key_case(content.take(n), a, b);
    if n < content.len() {
        lemma_key_case_insensitive(content.skip(n + 1), a, b);
    }
}

} // verus!
