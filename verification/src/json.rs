//! Render a configuration tree as pretty-printed JSON text.
//!
//! Scalar leaves become JSON strings — no type inference, a numeric-looking
//! value stays a string — and namespaces become JSON objects whose members
//! keep the tree's insertion order. Objects are laid out one member per line,
//! indented by two spaces per nesting level; the empty object is `{}`. String
//! contents are escaped as JSON requires: `"` and `\` get a backslash, the
//! common control characters get their short escapes, and the remaining
//! control characters are written as `\u00` followed by two lowercase hex
//! digits. All other characters, whitespace and non-ASCII included, are
//! written as they are.

use vstd::prelude::*;

use crate::strutil::chars_of;
use crate::strutil::push_char;
use crate::strutil::push_chars;
use crate::tree::ConfigValue;
use crate::tree::ValModel;
use crate::tree::entries_model;
use crate::tree::lemma_entries_model_index;
use crate::tree::lemma_entries_model_len;

verus! {

/// The lowercase hexadecimal digit of `n`.
pub open spec fn hex_digit(n: int) -> char {
    if n == 0 { '0' }
    else if n == 1 { '1' }
    else if n == 2 { '2' }
    else if n == 3 { '3' }
    else if n == 4 { '4' }
    else if n == 5 { '5' }
    else if n == 6 { '6' }
    else if n == 7 { '7' }
    else if n == 8 { '8' }
    else if n == 9 { '9' }
    else if n == 10 { 'a' }
    else if n == 11 { 'b' }
    else if n == 12 { 'c' }
    else if n == 13 { 'd' }
    else if n == 14 { 'e' }
    else { 'f' }
}

/// How one character appears inside a JSON string literal.
pub open spec fn escape_char(c: char) -> Seq<char> {
    if c == '"' {
        seq!['\\', '"']
    } else if c == '\\' {
        seq!['\\', '\\']
    } else if c == '\u{08}' {
        seq!['\\', 'b']
    } else if c == '\t' {
        seq!['\\', 't']
    } else if c == '\n' {
        seq!['\\', 'n']
    } else if c == '\u{0C}' {
        seq!['\\', 'f']
    } else if c == '\r' {
        seq!['\\', 'r']
    } else if (c as u32) < 0x20 {
        seq!['\\', 'u', '0', '0', hex_digit(c as u32 as int / 16), hex_digit(c as u32 as int % 16)]
    } else {
        seq![c]
    }
}

/// The escaped body of a JSON string literal.
pub open spec fn escape_str(s: Seq<char>) -> Seq<char>
    decreases s.len(),
{
    if s.len() == 0 {
        Seq::empty()
    } else {
        escape_str(s.drop_last()) + escape_char(s.last())
    }
}

/// A complete JSON string literal.
pub open spec fn quoted(s: Seq<char>) -> Seq<char> {
    seq!['"'] + escape_str(s) + seq!['"']
}

/// The JSON text of a value whose enclosing line is indented by `ind`.
pub open spec fn json_of(v: ValModel, ind: Seq<char>) -> Seq<char>
    decreases v,
{
    match v {
        ValModel::Leaf(s) => quoted(s),
        ValModel::Node(es) => {
            if es.len() == 0 {
                seq!['{', '}']
            } else {
                seq!['{', '\n'] + entries_json(es, ind + seq![' ', ' ']) + seq!['\n'] + ind
                    + seq!['}']
            }
        },
    }
}

/// The member lines of a JSON object, each indented by `ind`, separated by
/// commas.
pub open spec fn entries_json(es: Seq<(Seq<char>, ValModel)>, ind: Seq<char>) -> Seq<char>
    decreases es,
{
    if es.len() == 0 {
        Seq::empty()
    } else if es.len() == 1 {
        entry_json(es[0], ind)
    } else {
        entries_json(es.drop_last(), ind) + seq![',', '\n'] + entry_json(es.last(), ind)
    }
}

/// One `"key": value` member line, indented by `ind`.
pub open spec fn entry_json(e: (Seq<char>, ValModel), ind: Seq<char>) -> Seq<char>
    decreases e,
{
    ind + quoted(e.0) + seq![':', ' '] + json_of(e.1, ind)
}

fn hex_char(n: u32) -> (c: char)
    requires
        n < 16,
    ensures
        c == hex_digit(n as int),
{
    if n == 0 { '0' }
    else if n == 1 { '1' }
    else if n == 2 { '2' }
    else if n == 3 { '3' }
    else if n == 4 { '4' }
    else if n == 5 { '5' }
    else if n == 6 { '6' }
    else if n == 7 { '7' }
    else if n == 8 { '8' }
    else if n == 9 { '9' }
    else if n == 10 { 'a' }
    else if n == 11 { 'b' }
    else if n == 12 { 'c' }
    else if n == 13 { 'd' }
    else if n == 14 { 'e' }
    else { 'f' }
}

fn push_escaped_char(out: &mut String, c: char)
    ensures
        final(out)@ == old(out)@ + escape_char(c),
{
    let ghost o0 = out@;
    if c == '"' {
        push_char(out, '\\');
        push_char(out, '"');
    } else if c == '\\' {
        push_char(out, '\\');
        push_char(out, '\\');
    } else if c == '\u{08}' {
        push_char(out, '\\');
        push_char(out, 'b');
    } else if c == '\t' {
        push_char(out, '\\');
        push_char(out, 't');
    } else if c == '\n' {
        push_char(out, '\\');
        push_char(out, 'n');
    } else if c == '\u{0C}' {
        push_char(out, '\\');
        push_char(out, 'f');
    } else if c == '\r' {
        push_char(out, '\\');
        push_char(out, 'r');
    } else if (c as u32) < 0x20 {
        let u = c as u32;
        push_char(out, '\\');
        push_char(out, 'u');
        push_char(out, '0');
        push_char(out, '0');
        push_char(out, hex_char(u / 16));
        push_char(out, hex_char(u % 16));
    } else {
        push_char(out, c);
    }
    proof {
        assert(out@ =~= o0 + escape_char(c));
    }
}

/// Append the JSON string literal of `s` to `out`.
fn push_quoted(out: &mut String, s: &str)
    ensures
        final(out)@ == old(out)@ + quoted(s@),
{
    let ghost o0 = out@;
    let cs = chars_of(s);
    push_char(out, '"');
    let mut i: usize = 0;
    while i < cs.len()
        invariant
            i <= cs@.len(),
            out@ == o0 + seq!['"'] + escape_str(cs@.subrange(0, i as int)),
        decreases cs@.len() - i,
    {
        push_escaped_char(out, cs[i]);
        i = i + 1;
        proof {
            assert(cs@.subrange(0, i as int).drop_last() =~= cs@.subrange(0, i as int - 1));
            assert(out@ =~= o0 + seq!['"'] + escape_str(cs@.subrange(0, i as int)));
        }
    }
    push_char(out, '"');
    proof {
        assert(cs@.subrange(0, cs@.len() as int) =~= s@);
        assert(out@ =~= o0 + quoted(s@));
    }
}

/// A copy of `ind`, two spaces longer.
fn extend_indent(ind: &Vec<char>) -> (r: Vec<char>)
    ensures
        r@ == ind@ + seq![' ', ' '],
{
    let mut r: Vec<char> = Vec::new();
    let mut i: usize = 0;
    while i < ind.len()
        invariant
            i <= ind@.len(),
            r@ == ind@.subrange(0, i as int),
        decreases ind@.len() - i,
    {
        r.push(ind[i]);
        i = i + 1;
        proof {
            assert(r@ =~= ind@.subrange(0, i as int));
        }
    }
    r.push(' ');
    r.push(' ');
    proof {
        assert(r@ =~= ind@ + seq![' ', ' ']);
    }
    r
}

/// Append the JSON text of `v` to `out`, for a value whose enclosing line is
/// indented by `ind`.
fn write_value(v: &ConfigValue, ind: &Vec<char>, out: &mut String)
    ensures
        final(out)@ == old(out)@ + json_of(v@, ind@),
    decreases *v,
{
    match v {
        ConfigValue::Leaf(s) => {
            push_quoted(out, s.as_str());
        },
        ConfigValue::Node(es) => {
            write_node(es, ind, out);
        },
    }
}

/// Append the JSON object text of the namespace `es` to `out`.
fn write_node(es: &Vec<(String, ConfigValue)>, ind: &Vec<char>, out: &mut String)
    ensures
        final(out)@ == old(out)@ + json_of(ValModel::Node(entries_model(es@)), ind@),
    decreases *es,
{
    proof {
        broadcast use lemma_entries_model_len, lemma_entries_model_index;
    }
    let ghost o0 = out@;
    let ghost m = entries_model(es@);
    if es.len() == 0 {
        push_char(out, '{');
        push_char(out, '}');
        proof {
            assert(out@ =~= o0 + json_of(ValModel::Node(m), ind@));
        }
    } else {
        let ind2 = extend_indent(ind);
        push_char(out, '{');
        push_char(out, '\n');
        let mut j: usize = 0;
        while j < es.len()
            invariant
                j <= es@.len(),
                es@.len() == m.len(),
                m == entries_model(es@),
                ind2@ == ind@ + seq![' ', ' '],
                out@ == o0 + seq!['{', '\n'] + entries_json(m.subrange(0, j as int), ind2@),
                forall|x: int| 0 <= x < m.len()
                    ==> m[x] == (es@[x].0@, crate::tree::val_model(es@[x].1)),
            decreases es@.len() - j,
        {
            if j > 0 {
                push_char(out, ',');
                push_char(out, '\n');
            }
            push_chars(out, &ind2);
            push_quoted(out, es[j].0.as_str());
            push_char(out, ':');
            push_char(out, ' ');
            write_value(&es[j].1, &ind2, out);
            j = j + 1;
            proof {
                let pre = m.subrange(0, j - 1);
                let cur = m.subrange(0, j as int);
                assert(cur.drop_last() =~= pre);
                assert(cur.last() == m[j - 1]);
                if j == 1 {
                    assert(entries_json(cur, ind2@) == entry_json(m[0], ind2@));
                } else {
                    assert(entries_json(cur, ind2@) == entries_json(pre, ind2@) + seq![',', '\n']
                        + entry_json(m[j - 1], ind2@));
                }
                assert(out@ =~= o0 + seq!['{', '\n'] + entries_json(cur, ind2@));
            }
        }
        push_char(out, '\n');
        push_chars(out, ind);
        push_char(out, '}');
        proof {
            assert(m.subrange(0, m.len() as int) =~= m);
            assert(out@ =~= o0 + json_of(ValModel::Node(m), ind@));
        }
    }
}

/// Render the root namespace `config` as pretty-printed JSON text: the
/// recursive JSON object of its entries, in insertion order, with two-space
/// indentation.
pub fn format_as_json(config: &Vec<(String, ConfigValue)>) -> (r: String)
    ensures
        r@ == json_of(ValModel::Node(entries_model(config@)), Seq::<char>::empty()),
{
    let ind: Vec<char> = Vec::new();
    let mut out = String::new();
    write_node(config, &ind, &mut out);
    proof {
        assert(Seq::<char>::empty() + json_of(ValModel::Node(entries_model(config@)), ind@)
            =~= json_of(ValModel::Node(entries_model(config@)), Seq::<char>::empty()));
    }
    out
}

} // verus!
