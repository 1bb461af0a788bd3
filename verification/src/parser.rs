//! The line parser: classify one line of configuration text as comment,
//! blank, or `key = value` assignment, and extract the key and the value.
//!
//! A line whose first non-whitespace character is `#` is a comment; a line
//! holding only whitespace is blank; both are discarded. An assignment is
//! optional leading whitespace, a key of one or more characters from
//! `[A-Za-z0-9._-]`, optional whitespace, `=`, and the rest of the line as the
//! value, trimmed of surrounding whitespace but with internal whitespace kept.
//! A non-empty line that fits none of these forms is silently discarded:
//! malformed lines never fail a file.

use vstd::prelude::*;

use crate::strutil::chars_of;
use crate::strutil::string_of_range;

verus! {

/// The Unicode `White_Space` characters, the set that `str::trim` strips.
pub open spec fn is_ws(c: char) -> bool {
    let u = c as u32;
    ||| u == 0x09
    ||| u == 0x0A
    ||| u == 0x0B
    ||| u == 0x0C
    ||| u == 0x0D
    ||| u == 0x20
    ||| u == 0x85
    ||| u == 0xA0
    ||| u == 0x1680
    ||| (0x2000 <= u && u <= 0x200A)
    ||| u == 0x2028
    ||| u == 0x2029
    ||| u == 0x202F
    ||| u == 0x205F
    ||| u == 0x3000
}

/// The characters a key may be made of: letters, digits, `.`, `_`, `-`.
pub open spec fn is_key_char(c: char) -> bool {
    let u = c as u32;
    ||| (0x41 <= u && u <= 0x5A)
    ||| (0x61 <= u && u <= 0x7A)
    ||| (0x30 <= u && u <= 0x39)
    ||| c == '.'
    ||| c == '_'
    ||| c == '-'
}

/// The first position at or after `from` holding a non-whitespace character,
/// or the end of `s`.
pub open spec fn skip_ws(s: Seq<char>, from: int) -> int
    decreases s.len() - from,
{
    if from < 0 || from >= s.len() {
        s.len() as int
    } else if is_ws(s[from]) {
        skip_ws(s, from + 1)
    } else {
        from
    }
}

/// The first position at or after `from` holding a non-key character, or the
/// end of `s`.
pub open spec fn scan_key_end(s: Seq<char>, from: int) -> int
    decreases s.len() - from,
{
    if from < 0 || from >= s.len() {
        s.len() as int
    } else if is_key_char(s[from]) {
        scan_key_end(s, from + 1)
    } else {
        from
    }
}

/// The end of `s[from..to]` once trailing whitespace is dropped.
pub open spec fn trim_end(s: Seq<char>, from: int, to: int) -> int
    decreases to - from,
{
    if to <= from {
        from
    } else if is_ws(s[to - 1]) {
        trim_end(s, from, to - 1)
    } else {
        to
    }
}

/// A line holding only whitespace.
pub open spec fn is_blank_line(s: Seq<char>) -> bool {
    skip_ws(s, 0) == s.len()
}

/// A line whose first non-whitespace character is `#`.
pub open spec fn is_comment_line(s: Seq<char>) -> bool {
    let i = skip_ws(s, 0);
    i < s.len() && s[i] == '#'
}

/// What one line of configuration text yields: `None` for comments, blank
/// lines and lines that do not fit the assignment form; otherwise the key and
/// the trimmed value.
pub open spec fn spec_parse_line(s: Seq<char>) -> Option<(Seq<char>, Seq<char>)> {
    let i0 = skip_ws(s, 0);
    if i0 == s.len() {
        None
    } else if s[i0] == '#' {
        None
    } else {
        let kend = scan_key_end(s, i0);
        if kend == i0 {
            None
        } else {
            let eq = skip_ws(s, kend);
            if eq == s.len() || s[eq] != '=' {
                None
            } else {
                let vstart = skip_ws(s, eq + 1);
                let vend = trim_end(s, vstart, s.len() as int);
                if vstart >= vend {
                    None
                } else {
                    Some((s.subrange(i0, kend), s.subrange(vstart, vend)))
                }
            }
        }
    }
}

/// Comments and blank lines never produce a pair, whatever the line holds.
pub proof fn lemma_comment_blank_no_pair(s: Seq<char>)
    ensures
        is_blank_line(s) || is_comment_line(s) ==> spec_parse_line(s) is None,
{
}

fn ws_char(c: char) -> (r: bool)
    ensures
        r == is_ws(c),
{
    let u = c as u32;
    u == 0x09 || u == 0x0A || u == 0x0B || u == 0x0C || u == 0x0D || u == 0x20 || u == 0x85
        || u == 0xA0 || u == 0x1680 || (0x2000 <= u && u <= 0x200A) || u == 0x2028 || u == 0x2029
        || u == 0x202F || u == 0x205F || u == 0x3000
}

fn key_char(c: char) -> (r: bool)
    ensures
        r == is_key_char(c),
{
    let u = c as u32;
    (0x41 <= u && u <= 0x5A) || (0x61 <= u && u <= 0x7A) || (0x30 <= u && u <= 0x39) || c == '.'
        || c == '_' || c == '-'
}

fn find_non_ws(cs: &Vec<char>, from: usize) -> (r: usize)
    requires
        from <= cs@.len(),
    ensures
        from <= r <= cs@.len(),
        r == skip_ws(cs@, from as int),
    decreases cs@.len() - from,
{
    let mut i = from;
    while i < cs.len() && ws_char(cs[i])
        invariant
            from <= i <= cs@.len(),
            skip_ws(cs@, from as int) == skip_ws(cs@, i as int),
        decreases cs@.len() - i,
    {
        i = i + 1;
    }
    i
}

fn find_key_end(cs: &Vec<char>, from: usize) -> (r: usize)
    requires
        from <= cs@.len(),
    ensures
        from <= r <= cs@.len(),
        r == scan_key_end(cs@, from as int),
    decreases cs@.len() - from,
{
    let mut i = from;
    while i < cs.len() && key_char(cs[i])
        invariant
            from <= i <= cs@.len(),
            scan_key_end(cs@, from as int) == scan_key_end(cs@, i as int),
        decreases cs@.len() - i,
    {
        i = i + 1;
    }
    i
}

fn find_trim_end(cs: &Vec<char>, from: usize, to: usize) -> (r: usize)
    requires
        from <= to <= cs@.len(),
    ensures
        from <= r <= to,
        r == trim_end(cs@, from as int, to as int),
{
    let mut e = to;
    while e > from && ws_char(cs[e - 1])
        invariant
            from <= e <= to <= cs@.len(),
            trim_end(cs@, from as int, to as int) == trim_end(cs@, from as int, e as int),
        decreases e,
    {
        e = e - 1;
    }
    e
}

/// Parse one line. Yields the `(key, value)` pair of an assignment line, both
/// trimmed as [`spec_parse_line`] states, and `None` for every comment, blank,
/// or otherwise unparseable line.
pub fn parse_line(line: &str) -> (r: Option<(String, String)>)
    ensures
        match r {
            Some(p) => spec_parse_line(line@) == Some((p.0@, p.1@)),
            None => spec_parse_line(line@) is None,
        },
        is_blank_line(line@) || is_comment_line(line@) ==> r is None,
{
    let cs = chars_of(line);
    let n = cs.len();
    let i0 = find_non_ws(&cs, 0);
    if i0 == n {
        return None;
    }
    if cs[i0] == '#' {
        return None;
    }
    let kend = find_key_end(&cs, i0);
    if kend == i0 {
        return None;
    }
    let eq = find_non_ws(&cs, kend);
    if eq == n {
        return None;
    }
    if cs[eq] != '=' {
        return None;
    }
    let vstart = find_non_ws(&cs, eq + 1);
    let vend = find_trim_end(&cs, vstart, n);
    if vstart >= vend {
        return None;
    }
    let k = string_of_range(&cs, i0, kend);
    let v = string_of_range(&cs, vstart, vend);
    Some((k, v))
}

} // verus!
