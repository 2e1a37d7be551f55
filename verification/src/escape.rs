//! Escaping of literal characters for the generated expression, and the
//! table of letter escapes (`\n`, `\t`, ...) recognized in patterns.

use vstd::prelude::*;

verus! {

/// Characters that carry meaning in the target expression syntax and must
/// be escaped when they stand for themselves.
pub open spec fn regex_meta(c: char) -> bool {
    c == '[' || c == '{' || c == '(' || c == '|' || c == '^' || c == '$' || c == '.' || c == '*'
        || c == '?' || c == '+' || c == '\\'
}

/// A literal character as it appears in the generated expression.
pub open spec fn escaped(c: char) -> Seq<char> {
    if regex_meta(c) {
        seq!['\\', c]
    } else {
        seq![c]
    }
}

/// A literal character as it appears inside a character class, where only
/// the closing bracket and the backslash carry meaning.
pub open spec fn escaped_in_class(c: char) -> Seq<char> {
    if c == ']' || c == '\\' {
        seq!['\\', c]
    } else {
        seq![c]
    }
}

/// The control character denoted by an escape letter; any other character
/// passes through unchanged.
pub open spec fn letter_escape(c: char) -> char {
    if c == 'a' {
        '\x07'
    } else if c == 'b' {
        '\x08'
    } else if c == 'e' {
        '\x1b'
    } else if c == 'f' {
        '\x0c'
    } else if c == 'n' {
        '\x0a'
    } else if c == 'r' {
        '\x0d'
    } else if c == 't' {
        '\x09'
    } else if c == 'v' {
        '\x0b'
    } else {
        c
    }
}

/// Escape a character in a character class if necessary.
/// This only escapes the backslash itself and the closing bracket.
pub fn push_escaped_in_class(res: &mut Vec<char>, chr: char)
    ensures
        final(res)@ == old(res)@ + escaped_in_class(chr),
{
    if chr == ']' || chr == '\\' {
        res.push('\\');
    }
    res.push(chr);
    proof {
        assert(res@ =~= old(res)@ + escaped_in_class(chr));
    }
}

/// Escape a character outside of a character class if necessary.
pub fn push_escaped(res: &mut Vec<char>, chr: char)
    ensures
        final(res)@ == old(res)@ + escaped(chr),
{
    if chr == '[' || chr == '{' || chr == '(' || chr == '|' || chr == '^' || chr == '$' || chr
        == '.' || chr == '*' || chr == '?' || chr == '+' || chr == '\\' {
        res.push('\\');
    }
    res.push(chr);
    proof {
        assert(res@ =~= old(res)@ + escaped(chr));
    }
}

/// Interpret an escaped character: return the one that was meant.
pub fn map_letter_escape(chr: char) -> (r: char)
    ensures
        r == letter_escape(chr),
{
    match chr {
        'a' => '\x07',
        'b' => '\x08',
        'e' => '\x1b',
        'f' => '\x0c',
        'n' => '\x0a',
        'r' => '\x0d',
        't' => '\x09',
        'v' => '\x0b',
        other => other,
    }
}

/// Unescape a character and escape it if needed.
pub fn push_escaped_special(res: &mut Vec<char>, chr: char)
    ensures
        final(res)@ == old(res)@ + escaped(letter_escape(chr)),
{
    let mapped = map_letter_escape(chr);
    push_escaped(res, mapped);
}

} // verus!
