//! The pattern compiler: one left-to-right scan of a shell glob-like
//! pattern, producing the source text of an anchored regular expression.
//!
//! The scan is a state machine.  Each state says what the next character
//! may mean; each transition either appends a finished fragment to the
//! output, carries an accumulator forward, or fails with the kind of
//! malformation found.  Only the literal state may end the pattern.

use vstd::prelude::*;
use crate::alternate::alternate_canonical;
use crate::alternate::close_alternate;
use crate::classes::ClassAccumulator;
use crate::classes::ClassItem;
use crate::classes::class_canonical;
use crate::classes::close_class;
use crate::error::ParseError;
use crate::escape::escaped;
use crate::escape::letter_escape;
use crate::escape::map_letter_escape;
use crate::escape::push_escaped;
use crate::escape::push_escaped_special;
use crate::sorting::seq_views;
use vstd::string::StrSliceExecFns;

verus! {

/// An accumulator for building a collection of alternatives.
#[derive(Debug)]
pub struct AlternateAccumulator {
    /// The branch being gathered now.
    pub current: Vec<char>,
    /// The branches gathered so far.
    pub gathered: Vec<Vec<char>>,
}

/// The current state of the glob pattern parser.
#[derive(Debug)]
pub enum State {
    /// The next item can be a literal character.
    Literal,
    /// The next item will signify a character escape, e.g. `\t`, `\n`, etc.
    Escape,
    /// The next item will be the first character of a class, possibly `!`.
    ClassStart,
    /// The next item will either be a character or a range, both within a
    /// class.
    Class(ClassAccumulator),
    /// A character was followed by a dash: the class holds a pending
    /// range start and waits for the range end.
    ClassRange(ClassAccumulator, char),
    /// There was a dash following a character range; only the end of the
    /// class definition may follow.
    ClassRangeDash(ClassAccumulator),
    /// The next item will signify a character escape within a class.
    ClassEscape(ClassAccumulator),
    /// We are building a collection of alternatives.
    Alternate(AlternateAccumulator),
    /// The next item will signify a character escape within a collection
    /// of alternatives.
    AlternateEscape(AlternateAccumulator),
}

/// A fragment prepended to the outcome of compiling the rest of the
/// pattern; a failure passes through unchanged.
pub open spec fn prefixed(f: Seq<char>, r: Result<Seq<char>, ParseError>) -> Result<
    Seq<char>,
    ParseError,
> {
    match r {
        Ok(s) => Ok(f + s),
        Err(e) => Err(e),
    }
}

/// Compiling the rest of the pattern from the literal state.  An empty
/// rest is accepted here, and only here, with the closing anchor.
pub open spec fn run_literal(rest: Seq<char>) -> Result<Seq<char>, ParseError>
    decreases rest.len(),
{
    if rest.len() == 0 {
        Ok(seq!['$'])
    } else {
        let c = rest[0];
        let t = rest.drop_first();
        if c == '\\' {
            run_escape(t)
        } else if c == '[' {
            run_class_start(t)
        } else if c == '{' {
            run_alternate(Seq::empty(), Seq::empty(), t)
        } else if c == '?' {
            prefixed(seq!['[', '^', '/', ']'], run_literal(t))
        } else if c == '*' {
            prefixed(seq!['[', '^', '/', ']', '*'], run_literal(t))
        } else if c == ']' || c == '}' || c == '.' {
            prefixed(seq!['\\', c], run_literal(t))
        } else {
            prefixed(seq![c], run_literal(t))
        }
    }
}

/// Compiling the rest of the pattern right after a backslash.
pub open spec fn run_escape(rest: Seq<char>) -> Result<Seq<char>, ParseError>
    decreases rest.len(),
{
    if rest.len() == 0 {
        Err(ParseError::BareEscape)
    } else {
        prefixed(escaped(letter_escape(rest[0])), run_literal(rest.drop_first()))
    }
}

/// Compiling the rest of the pattern right after an opening bracket.
pub open spec fn run_class_start(rest: Seq<char>) -> Result<Seq<char>, ParseError>
    decreases rest.len(),
{
    if rest.len() == 0 {
        Err(ParseError::UnclosedClass)
    } else {
        let c = rest[0];
        let t = rest.drop_first();
        if c == '!' {
            run_class(true, Seq::empty(), t)
        } else if c == '\\' {
            run_class_escape(false, Seq::empty(), t)
        } else {
            run_class(false, seq![ClassItem::Char(c)], t)
        }
    }
}

/// Compiling the rest of the pattern inside a character class.
pub open spec fn run_class(negated: bool, items: Seq<ClassItem>, rest: Seq<char>) -> Result<
    Seq<char>,
    ParseError,
>
    decreases rest.len(),
{
    if rest.len() == 0 {
        Err(ParseError::UnclosedClass)
    } else {
        let c = rest[0];
        let t = rest.drop_first();
        if c == ']' {
            if items.len() == 0 {
                run_class(negated, seq![ClassItem::Char(']')], t)
            } else {
                prefixed(class_canonical(negated, items), run_literal(t))
            }
        } else if c == '-' {
            if items.len() == 0 {
                run_class(negated, seq![ClassItem::Char('-')], t)
            } else {
                match items.last() {
                    ClassItem::Range(_, _) => run_class_range_dash(negated, items, t),
                    ClassItem::Char(x) => run_class_range(negated, items.drop_last(), x, t),
                }
            }
        } else if c == '\\' {
            run_class_escape(negated, items, t)
        } else {
            run_class(negated, items.push(ClassItem::Char(c)), t)
        }
    }
}

/// Compiling the rest of the pattern while a range start and its dash
/// wait for the range end.
pub open spec fn run_class_range(
    negated: bool,
    items: Seq<ClassItem>,
    start: char,
    rest: Seq<char>,
) -> Result<Seq<char>, ParseError>
    decreases rest.len(),
{
    if rest.len() == 0 {
        Err(ParseError::UnclosedClass)
    } else {
        let c = rest[0];
        let t = rest.drop_first();
        if c == '\\' {
            Err(ParseError::NotImplemented)
        } else if c == ']' {
            prefixed(
                class_canonical(
                    negated,
                    items.push(ClassItem::Char(start)).push(ClassItem::Char('-')),
                ),
                run_literal(t),
            )
        } else if (start as u32) > (c as u32) {
            Err(ParseError::ReversedRange(start, c))
        } else if start == c {
            run_class(negated, items.push(ClassItem::Char(start)), t)
        } else {
            run_class(negated, items.push(ClassItem::Range(start, c)), t)
        }
    }
}

/// Compiling the rest of the pattern after a dash that follows a
/// completed range: only the end of the class may come.
pub open spec fn run_class_range_dash(
    negated: bool,
    items: Seq<ClassItem>,
    rest: Seq<char>,
) -> Result<Seq<char>, ParseError>
    decreases rest.len(),
{
    if rest.len() == 0 {
        Err(ParseError::UnclosedClass)
    } else if rest[0] == ']' {
        prefixed(
            class_canonical(negated, items.push(ClassItem::Char('-'))),
            run_literal(rest.drop_first()),
        )
    } else {
        if items.len() > 0 && items.last() is Range {
            Err(ParseError::RangeAfterRange(items.last()->Range_0, items.last()->Range_1))
        } else {
            Err(ParseError::NotImplemented)
        }
    }
}

/// Compiling the rest of the pattern right after a backslash inside a
/// class.
pub open spec fn run_class_escape(
    negated: bool,
    items: Seq<ClassItem>,
    rest: Seq<char>,
) -> Result<Seq<char>, ParseError>
    decreases rest.len(),
{
    if rest.len() == 0 {
        Err(ParseError::UnclosedClass)
    } else {
        run_class(
            negated,
            items.push(ClassItem::Char(letter_escape(rest[0]))),
            rest.drop_first(),
        )
    }
}

/// Compiling the rest of the pattern inside an alternation group.
pub open spec fn run_alternate(
    current: Seq<char>,
    gathered: Seq<Seq<char>>,
    rest: Seq<char>,
) -> Result<Seq<char>, ParseError>
    decreases rest.len(),
{
    if rest.len() == 0 {
        Err(ParseError::UnclosedAlternation)
    } else {
        let c = rest[0];
        let t = rest.drop_first();
        if c == ',' {
            run_alternate(Seq::empty(), gathered.push(current), t)
        } else if c == '}' {
            if current.len() == 0 && gathered.len() == 0 {
                prefixed(seq!['\\', '{', '}'], run_literal(t))
            } else {
                prefixed(alternate_canonical(gathered.push(current)), run_literal(t))
            }
        } else if c == '\\' {
            run_alternate_escape(current, gathered, t)
        } else if c == '[' {
            Err(ParseError::NotImplemented)
        } else {
            run_alternate(current.push(c), gathered, t)
        }
    }
}

/// Compiling the rest of the pattern right after a backslash inside an
/// alternation group.
pub open spec fn run_alternate_escape(
    current: Seq<char>,
    gathered: Seq<Seq<char>>,
    rest: Seq<char>,
) -> Result<Seq<char>, ParseError>
    decreases rest.len(),
{
    if rest.len() == 0 {
        Err(ParseError::UnclosedAlternation)
    } else {
        run_alternate(current.push(letter_escape(rest[0])), gathered, rest.drop_first())
    }
}

/// Compiling the rest of the pattern from any state of the scan.
pub open spec fn run_state(state: State, rest: Seq<char>) -> Result<Seq<char>, ParseError> {
    match state {
        State::Literal => run_literal(rest),
        State::Escape => run_escape(rest),
        State::ClassStart => run_class_start(rest),
        State::Class(acc) => run_class(acc.negated, acc.items@, rest),
        State::ClassRange(acc, start) => run_class_range(acc.negated, acc.items@, start, rest),
        State::ClassRangeDash(acc) => run_class_range_dash(acc.negated, acc.items@, rest),
        State::ClassEscape(acc) => run_class_escape(acc.negated, acc.items@, rest),
        State::Alternate(alt) => run_alternate(alt.current@, seq_views(alt.gathered@), rest),
        State::AlternateEscape(alt) => run_alternate_escape(
            alt.current@,
            seq_views(alt.gathered@),
            rest,
        ),
    }
}

/// What a whole pattern compiles to: the anchored expression text, or the
/// failure that stops the compilation.
pub open spec fn compiled(pattern: Seq<char>) -> Result<Seq<char>, ParseError> {
    prefixed(seq!['^'], run_literal(pattern))
}

/// Prepending two fragments one after the other prepends their
/// concatenation.
proof fn lemma_prefixed_assoc(a: Seq<char>, b: Seq<char>, r: Result<Seq<char>, ParseError>)
    ensures
        prefixed(a, prefixed(b, r)) == prefixed(a + b, r),
{
    match r {
        Ok(s) => {
            assert(a + (b + s) =~= (a + b) + s);
        },
        Err(_) => {},
    }
}

/// Prepending nothing changes nothing.
proof fn lemma_prefixed_empty(r: Result<Seq<char>, ParseError>)
    ensures
        prefixed(Seq::empty(), r) == r,
{
    match r {
        Ok(s) => {
            assert(Seq::empty() + s =~= s);
        },
        Err(_) => {},
    }
}

/// One scan step from the literal state.
#[verifier::rlimit(50)]
#[verifier::spinoff_prover]
fn step_literal(c: char, out: &mut Vec<char>, Ghost(rest): Ghost<Seq<char>>) -> (r: State)
    requires
        rest.len() > 0,
        rest[0] == c,
    ensures
        old(out)@.is_prefix_of(final(out)@),
        run_literal(rest) == prefixed(
            final(out)@.skip(old(out)@.len() as int),
            run_state(r, rest.drop_first()),
        ),
{
    broadcast use vstd::seq_lib::group_seq_properties;

    let ghost out0 = out@;
    let ns: State = if c == '\\' {
        State::Escape
    } else if c == '[' {
        State::ClassStart
    } else if c == '{' {
        State::Alternate(AlternateAccumulator { current: Vec::new(), gathered: Vec::new() })
    } else if c == '?' {
        out.push('[');
        out.push('^');
        out.push('/');
        out.push(']');
        proof {
            assert(out@.skip(out0.len() as int) =~= seq!['[', '^', '/', ']']);
        }
        State::Literal
    } else if c == '*' {
        out.push('[');
        out.push('^');
        out.push('/');
        out.push(']');
        out.push('*');
        proof {
            assert(out@.skip(out0.len() as int) =~= seq!['[', '^', '/', ']', '*']);
        }
        State::Literal
    } else if c == ']' || c == '}' || c == '.' {
        out.push('\\');
        out.push(c);
        proof {
            assert(out@.skip(out0.len() as int) =~= seq!['\\', c]);
        }
        State::Literal
    } else {
        out.push(c);
        proof {
            assert(out@.skip(out0.len() as int) =~= seq![c]);
        }
        State::Literal
    };
    proof {
        assert(out@.take(out0.len() as int) =~= out0);
        if out@.len() == out0.len() {
            assert(out@.skip(out0.len() as int) =~= Seq::<char>::empty());
            lemma_prefixed_empty(run_state(ns, rest.drop_first()));
        }
    }
    ns
}

/// One scan step right after a backslash.
fn step_escape(c: char, out: &mut Vec<char>, Ghost(rest): Ghost<Seq<char>>) -> (r: State)
    requires
        rest.len() > 0,
        rest[0] == c,
    ensures
        old(out)@.is_prefix_of(final(out)@),
        run_escape(rest) == prefixed(
            final(out)@.skip(old(out)@.len() as int),
            run_state(r, rest.drop_first()),
        ),
{
    let ghost out0 = out@;
    push_escaped_special(out, c);
    proof {
        assert(out@.take(out0.len() as int) =~= out0);
        assert(out@.skip(out0.len() as int) =~= escaped(letter_escape(c)));
    }
    State::Literal
}

/// One scan step on the first character of a class.
fn step_class_start(c: char, Ghost(rest): Ghost<Seq<char>>) -> (r: State)
    requires
        rest.len() > 0,
        rest[0] == c,
    ensures
        run_class_start(rest) == run_state(r, rest.drop_first()),
{
    if c == '!' {
        State::Class(ClassAccumulator { negated: true, items: Vec::new() })
    } else if c == '\\' {
        State::ClassEscape(ClassAccumulator { negated: false, items: Vec::new() })
    } else {
        let mut items: Vec<ClassItem> = Vec::new();
        items.push(ClassItem::Char(c));
        proof {
            assert(items@ =~= seq![ClassItem::Char(c)]);
        }
        State::Class(ClassAccumulator { negated: false, items })
    }
}

/// One scan step inside a character class.
fn step_class(acc: ClassAccumulator, c: char, out: &mut Vec<char>, Ghost(rest): Ghost<
    Seq<char>,
>) -> (r: State)
    requires
        rest.len() > 0,
        rest[0] == c,
    ensures
        old(out)@.is_prefix_of(final(out)@),
        run_class(acc.negated, acc.items@, rest) == prefixed(
            final(out)@.skip(old(out)@.len() as int),
            run_state(r, rest.drop_first()),
        ),
{
    let ghost out0 = out@;
    let ghost neg = acc.negated;
    let ghost items0 = acc.items@;
    let mut acc = acc;
    let ns: State = if c == ']' {
        if acc.items.len() == 0 {
            acc.items.push(ClassItem::Char(']'));
            proof {
                assert(acc.items@ =~= seq![ClassItem::Char(']')]);
            }
            State::Class(acc)
        } else {
            close_class(acc, out);
            proof {
                assert(out@.skip(out0.len() as int) =~= class_canonical(neg, items0));
            }
            State::Literal
        }
    } else if c == '-' {
        match acc.items.pop() {
            Some(ClassItem::Range(lo, hi)) => {
                acc.items.push(ClassItem::Range(lo, hi));
                proof {
                    assert(acc.items@ =~= items0);
                }
                State::ClassRangeDash(acc)
            },
            Some(ClassItem::Char(x)) => {
                proof {
                    assert(acc.items@ =~= items0.drop_last());
                }
                State::ClassRange(acc, x)
            },
            None => {
                acc.items.push(ClassItem::Char('-'));
                proof {
                    assert(items0.len() == 0);
                    assert(acc.items@ =~= seq![ClassItem::Char('-')]);
                }
                State::Class(acc)
            },
        }
    } else if c == '\\' {
        State::ClassEscape(acc)
    } else {
        acc.items.push(ClassItem::Char(c));
        State::Class(acc)
    };
    proof {
        assert(out@.take(out0.len() as int) =~= out0);
        if out@.len() == out0.len() {
            assert(out@.skip(out0.len() as int) =~= Seq::<char>::empty());
            lemma_prefixed_empty(run_state(ns, rest.drop_first()));
        }
    }
    ns
}

/// One scan step while a range start and its dash wait for the range end.
fn step_class_range(
    acc: ClassAccumulator,
    start: char,
    c: char,
    out: &mut Vec<char>,
    Ghost(rest): Ghost<Seq<char>>,
) -> (r: Result<State, ParseError>)
    requires
        rest.len() > 0,
        rest[0] == c,
    ensures
        old(out)@.is_prefix_of(final(out)@),
        (match r {
            Ok(ns) => run_class_range(acc.negated, acc.items@, start, rest) == prefixed(
                final(out)@.skip(old(out)@.len() as int),
                run_state(ns, rest.drop_first()),
            ),
            Err(e) => run_class_range(acc.negated, acc.items@, start, rest) == Err::<
                Seq<char>,
                ParseError,
            >(e),
        }),
{
    let ghost out0 = out@;
    let ghost neg = acc.negated;
    let ghost items0 = acc.items@;
    let mut acc = acc;
    if c == '\\' {
        return Err(ParseError::NotImplemented);
    }
    if c == ']' {
        acc.items.push(ClassItem::Char(start));
        acc.items.push(ClassItem::Char('-'));
        close_class(acc, out);
        proof {
            assert(out@.take(out0.len() as int) =~= out0);
            assert(out@.skip(out0.len() as int) =~= class_canonical(
                neg,
                items0.push(ClassItem::Char(start)).push(ClassItem::Char('-')),
            ));
        }
        return Ok(State::Literal);
    }
    if (start as u32) > (c as u32) {
        return Err(ParseError::ReversedRange(start, c));
    }
    let ns: State = if start == c {
        acc.items.push(ClassItem::Char(start));
        State::Class(acc)
    } else {
        acc.items.push(ClassItem::Range(start, c));
        State::Class(acc)
    };
    proof {
        assert(out@.skip(out0.len() as int) =~= Seq::<char>::empty());
        lemma_prefixed_empty(run_state(ns, rest.drop_first()));
    }
    Ok(ns)
}

/// One scan step after the dash that follows a completed range.
fn step_class_range_dash(
    acc: ClassAccumulator,
    c: char,
    out: &mut Vec<char>,
    Ghost(rest): Ghost<Seq<char>>,
) -> (r: Result<State, ParseError>)
    requires
        rest.len() > 0,
        rest[0] == c,
    ensures
        old(out)@.is_prefix_of(final(out)@),
        (match r {
            Ok(ns) => run_class_range_dash(acc.negated, acc.items@, rest) == prefixed(
                final(out)@.skip(old(out)@.len() as int),
                run_state(ns, rest.drop_first()),
            ),
            Err(e) => run_class_range_dash(acc.negated, acc.items@, rest) == Err::<
                Seq<char>,
                ParseError,
            >(e),
        }),
{
    let ghost out0 = out@;
    let ghost neg = acc.negated;
    let ghost items0 = acc.items@;
    let mut acc = acc;
    if c == ']' {
        acc.items.push(ClassItem::Char('-'));
        close_class(acc, out);
        proof {
            assert(out@.take(out0.len() as int) =~= out0);
            assert(out@.skip(out0.len() as int) =~= class_canonical(
                neg,
                items0.push(ClassItem::Char('-')),
            ));
        }
        Ok(State::Literal)
    } else {
        match acc.items.pop() {
            Some(ClassItem::Range(lo, hi)) => Err(ParseError::RangeAfterRange(lo, hi)),
            _ => Err(ParseError::NotImplemented),
        }
    }
}

/// One scan step right after a backslash inside a class.
fn step_class_escape(acc: ClassAccumulator, c: char, Ghost(rest): Ghost<Seq<char>>) -> (r:
    State)
    requires
        rest.len() > 0,
        rest[0] == c,
    ensures
        run_class_escape(acc.negated, acc.items@, rest) == run_state(r, rest.drop_first()),
{
    let mut acc = acc;
    let esc = map_letter_escape(c);
    acc.items.push(ClassItem::Char(esc));
    State::Class(acc)
}

/// One scan step inside an alternation group.
fn step_alternate(
    alt: AlternateAccumulator,
    c: char,
    out: &mut Vec<char>,
    Ghost(rest): Ghost<Seq<char>>,
) -> (r: Result<State, ParseError>)
    requires
        rest.len() > 0,
        rest[0] == c,
    ensures
        old(out)@.is_prefix_of(final(out)@),
        (match r {
            Ok(ns) => run_alternate(alt.current@, seq_views(alt.gathered@), rest) == prefixed(
                final(out)@.skip(old(out)@.len() as int),
                run_state(ns, rest.drop_first()),
            ),
            Err(e) => run_alternate(alt.current@, seq_views(alt.gathered@), rest) == Err::<
                Seq<char>,
                ParseError,
            >(e),
        }),
{
    let ghost out0 = out@;
    let ghost cur0 = alt.current@;
    let ghost gat0 = seq_views(alt.gathered@);
    if c == ',' {
        let AlternateAccumulator { current, mut gathered } = alt;
        gathered.push(current);
        proof {
            assert(seq_views(gathered@) =~= gat0.push(cur0));
            assert(out@.skip(out0.len() as int) =~= Seq::<char>::empty());
        }
        let ns = State::Alternate(AlternateAccumulator { current: Vec::new(), gathered });
        proof {
            lemma_prefixed_empty(run_state(ns, rest.drop_first()));
        }
        return Ok(ns);
    }
    if c == '}' {
        if alt.current.len() == 0 && alt.gathered.len() == 0 {
            push_escaped(out, '{');
            push_escaped(out, '}');
            proof {
                assert(cur0.len() == 0 && gat0.len() == 0);
                assert(out@.take(out0.len() as int) =~= out0);
                assert(out@.skip(out0.len() as int) =~= seq!['\\', '{', '}']);
            }
            return Ok(State::Literal);
        } else {
            let AlternateAccumulator { current, mut gathered } = alt;
            gathered.push(current);
            proof {
                assert(seq_views(gathered@) =~= gat0.push(cur0));
            }
            close_alternate(gathered, out);
            proof {
                assert(out@.take(out0.len() as int) =~= out0);
                assert(out@.skip(out0.len() as int) =~= alternate_canonical(gat0.push(cur0)));
            }
            return Ok(State::Literal);
        }
    }
    if c == '\\' {
        return Ok(State::AlternateEscape(alt));
    }
    if c == '[' {
        return Err(ParseError::NotImplemented);
    }
    let mut alt2 = alt;
    alt2.current.push(c);
    proof {
        assert(alt2.current@ =~= cur0.push(c));
        assert(seq_views(alt2.gathered@) == gat0);
        assert(out@.skip(out0.len() as int) =~= Seq::<char>::empty());
    }
    let ns = State::Alternate(alt2);
    proof {
        lemma_prefixed_empty(run_state(ns, rest.drop_first()));
    }
    Ok(ns)
}

/// One scan step right after a backslash inside an alternation group.
fn step_alternate_escape(alt: AlternateAccumulator, c: char, Ghost(rest): Ghost<
    Seq<char>,
>) -> (r: State)
    requires
        rest.len() > 0,
        rest[0] == c,
    ensures
        run_alternate_escape(alt.current@, seq_views(alt.gathered@), rest) == run_state(
            r,
            rest.drop_first(),
        ),
{
    let ghost cur0 = alt.current@;
    let ghost gat0 = seq_views(alt.gathered@);
    let esc = map_letter_escape(c);
    let mut alt2 = alt;
    alt2.current.push(esc);
    proof {
        assert(alt2.current@ =~= cur0.push(letter_escape(c)));
        assert(seq_views(alt2.gathered@) == gat0);
    }
    State::Alternate(alt2)
}

/// Relies on `String::push`: appending one character to the end of the
/// string appends exactly that character.
#[verifier::external_body]
fn push_char(s: &mut String, c: char)
    ensures
        final(s)@ == old(s)@ + seq![c],
{
    s.push(c);
}

/// The characters of the output buffer as one string.
fn collect_string(out: &Vec<char>) -> (s: String)
    ensures
        s@ == out@,
{
    let mut s = String::new();
    let m = out.len();
    let mut k: usize = 0;
    while k < m
        invariant
            k <= m,
            m == out@.len(),
            s@ == out@.take(k as int),
        decreases m - k,
    {
        push_char(&mut s, out[k]);
        proof {
            assert(s@ =~= out@.take(k + 1));
        }
        k += 1;
    }
    proof {
        assert(out@.take(m as int) =~= out@);
    }
    s
}

/// The view of a compilation result, character for character.
pub open spec fn result_chars(r: Result<String, ParseError>) -> Result<Seq<char>, ParseError> {
    match r {
        Ok(s) => Ok(s@),
        Err(e) => Err(e),
    }
}

/// Parse a shell glob-like pattern into the source text of the anchored
/// regular expression it stands for, without handing it to the engine.
#[verifier::rlimit(100)]
#[verifier::spinoff_prover]
pub fn glob_to_regex_string(pattern: &str) -> (r: Result<String, ParseError>)
    ensures
        result_chars(r) == compiled(pattern@),
{
    let ghost p = pattern@;
    let mut chars: Vec<char> = Vec::new();
    let n = pattern.unicode_len();
    let mut idx: usize = 0;
    while idx < n
        invariant
            idx <= n,
            n == p.len(),
            pattern@ == p,
            chars@ == p.take(idx as int),
        decreases n - idx,
    {
        let c = pattern.get_char(idx);
        chars.push(c);
        proof {
            assert(chars@ =~= p.take(idx + 1));
        }
        idx += 1;
    }
    proof {
        assert(p.take(n as int) =~= p);
    }
    let mut out: Vec<char> = Vec::new();
    out.push('^');
    let mut st = State::Literal;
    let mut i: usize = 0;
    proof {
        assert(p.skip(0) =~= p);
        assert(out@ =~= seq!['^']);
    }
    while i < n
        invariant
            i <= n,
            n == p.len(),
            pattern@ == p,
            chars@ == p,
            compiled(p) == prefixed(out@, run_state(st, p.skip(i as int))),
        decreases n - i,
    {
        let c = chars[i];
        let ghost out0 = out@;
        let ghost rest = p.skip(i as int);
        let ghost rest1 = p.skip(i as int + 1);
        proof {
            assert(rest.len() > 0);
            assert(rest[0] == p[i as int]);
            assert(c == rest[0]);
            assert(rest.drop_first() =~= rest1);
        }
        let stepped: Result<State, ParseError> = match st {
            State::Literal => Ok(step_literal(c, &mut out, Ghost(rest))),
            State::Escape => Ok(step_escape(c, &mut out, Ghost(rest))),
            State::ClassStart => Ok(step_class_start(c, Ghost(rest))),
            State::Class(acc) => Ok(step_class(acc, c, &mut out, Ghost(rest))),
            State::ClassRange(acc, start) => step_class_range(
                acc,
                start,
                c,
                &mut out,
                Ghost(rest),
            ),
            State::ClassRangeDash(acc) => step_class_range_dash(acc, c, &mut out, Ghost(rest)),
            State::ClassEscape(acc) => Ok(step_class_escape(acc, c, Ghost(rest))),
            State::Alternate(alt) => step_alternate(alt, c, &mut out, Ghost(rest)),
            State::AlternateEscape(alt) => Ok(step_alternate_escape(alt, c, Ghost(rest))),
        };
        match stepped {
            Ok(ns) => {
                proof {
                    let appended = out@.skip(out0.len() as int);
                    assert(out@ =~= out0 + appended);
                    lemma_prefixed_assoc(out0, appended, run_state(ns, rest1));
                }
                st = ns;
            },
            Err(e) => {
                proof {
                    assert(compiled(p) == Err::<Seq<char>, ParseError>(e));
                    assert(result_chars(Err::<String, ParseError>(e)) == Err::<
                        Seq<char>,
                        ParseError,
                    >(e));
                    assert(p == pattern@);
                }
                return Err(e);
            },
        }
        i += 1;
    }
    proof {
        assert(p.skip(n as int) =~= Seq::<char>::empty());
    }
    match st {
        State::Literal => {
            let ghost out0 = out@;
            out.push('$');
            proof {
                assert(out@ =~= out0 + seq!['$']);
                assert(run_literal(Seq::<char>::empty()) == Ok::<Seq<char>, ParseError>(
                    seq!['$'],
                ));
                assert(compiled(p) == Ok::<Seq<char>, ParseError>(out@));
            }
            Ok(collect_string(&out))
        },
        State::Escape => {
            proof {
                assert(compiled(p) == Err::<Seq<char>, ParseError>(ParseError::BareEscape));
            }
            Err(ParseError::BareEscape)
        },
        State::ClassStart => {
            proof {
                assert(compiled(p) == Err::<Seq<char>, ParseError>(ParseError::UnclosedClass));
            }
            Err(ParseError::UnclosedClass)
        },
        State::Class(_) => {
            proof {
                assert(compiled(p) == Err::<Seq<char>, ParseError>(ParseError::UnclosedClass));
            }
            Err(ParseError::UnclosedClass)
        },
        State::ClassRange(_, _) => {
            proof {
                assert(compiled(p) == Err::<Seq<char>, ParseError>(ParseError::UnclosedClass));
            }
            Err(ParseError::UnclosedClass)
        },
        State::ClassRangeDash(_) => {
            proof {
                assert(compiled(p) == Err::<Seq<char>, ParseError>(ParseError::UnclosedClass));
            }
            Err(ParseError::UnclosedClass)
        },
        State::ClassEscape(_) => {
            proof {
                assert(compiled(p) == Err::<Seq<char>, ParseError>(ParseError::UnclosedClass));
            }
            Err(ParseError::UnclosedClass)
        },
        State::Alternate(_) => {
            proof {
                assert(compiled(p) == Err::<Seq<char>, ParseError>(
                    ParseError::UnclosedAlternation,
                ));
            }
            Err(ParseError::UnclosedAlternation)
        },
        State::AlternateEscape(_) => {
            proof {
                assert(compiled(p) == Err::<Seq<char>, ParseError>(
                    ParseError::UnclosedAlternation,
                ));
            }
            Err(ParseError::UnclosedAlternation)
        },
    }
}

/// The engine's compiled matcher type, `regex::Regex`, declared so that
/// it can stand in signatures; the library never looks inside a value of
/// it.
#[verifier::external_type_specification]
#[verifier::external_body]
pub struct ExRegex(regex::Regex);

/// Whether the engine accepts an expression text.  `regex::Regex::new`
/// builds with a fixed default configuration, so its outcome depends on
/// the expression text alone; what that outcome is on given text is not
/// stated here, only that it is the same on every call.
pub uninterp spec fn regex_compiles(expr: Seq<char>) -> bool;

/// Relies on `regex::Regex::new`: compiling an expression yields a
/// matcher exactly when the engine accepts the expression text, and an
/// error explaining the rejection otherwise.
#[verifier::external_body]
fn regex_new(expr: &str) -> (r: Result<regex::Regex, String>)
    ensures
        r is Ok <==> regex_compiles(expr@),
{
    match regex::Regex::new(expr) {
        Ok(re) => Ok(re),
        Err(err) => Err(err.to_string()),
    }
}

/// Parse a shell glob-like pattern into a regular expression.
///
/// The generated expression is exactly the canonical text that
/// [`glob_to_regex_string`] describes.  A matcher comes back exactly
/// when the pattern compiles and the engine accepts that text; the
/// engine's rejection surfaces as `InvalidRegex` carrying the text.
pub fn glob_to_regex(pattern: &str) -> (r: Result<regex::Regex, ParseError>)
    ensures
        compiled(pattern@) matches Err(e) ==> (r matches Err(e2) && e2 == e),
        compiled(pattern@) matches Ok(s) ==> (r is Ok <==> regex_compiles(s)),
        compiled(pattern@) matches Ok(s) ==> (match r {
            Ok(_) => true,
            Err(e) => (e matches ParseError::InvalidRegex(src, _) && src@ == s),
        }),
        r is Ok ==> compiled(pattern@) is Ok,
{
    match glob_to_regex_string(pattern) {
        Ok(s) => match regex_new(s.as_str()) {
            Ok(re) => Ok(re),
            Err(msg) => Err(ParseError::InvalidRegex(s, msg)),
        },
        Err(e) => Err(e),
    }
}

/// The characters that take part in the pattern grammar; all others
/// stand for themselves.
pub open spec fn glob_special(c: char) -> bool {
    c == '\\' || c == '?' || c == '*' || c == '[' || c == '{' || c == ']' || c == '}' || c == '.'
}

/// From the literal state, a run of ordinary characters passes through
/// unchanged, followed by the closing anchor.
proof fn lemma_run_literal_plain(p: Seq<char>)
    requires
        forall|i: int| 0 <= i < p.len() ==> !glob_special(#[trigger] p[i]),
    ensures
        run_literal(p) == Ok::<Seq<char>, ParseError>(p + seq!['$']),
    decreases p.len(),
{
    if p.len() == 0 {
        assert(p + seq!['$'] =~= seq!['$']);
    } else {
        let t = p.drop_first();
        assert(!glob_special(p[0]));
        assert forall|i: int| 0 <= i < t.len() implies !glob_special(#[trigger] t[i]) by {
            assert(t[i] == p[i + 1]);
            assert(!glob_special(p[i + 1]));
        }
        lemma_run_literal_plain(t);
        assert(run_literal(p) == prefixed(seq![p[0]], run_literal(t)));
        assert(seq![p[0]] + (t + seq!['$']) =~= p + seq!['$']);
    }
}

/// A pattern of ordinary characters — none of `\ ? * [ { ] } .` —
/// compiles to exactly the anchored pattern text: every character
/// passes through unchanged between the anchors.  Characters that only
/// the target expression syntax treats as operators, such as `+` or
/// `(`, pass through unchanged as well, so a pattern free of those
/// matches exactly its own text.
pub proof fn lemma_plain_pattern_literal(p: Seq<char>)
    requires
        forall|i: int| 0 <= i < p.len() ==> !glob_special(#[trigger] p[i]),
    ensures
        compiled(p) == Ok::<Seq<char>, ParseError>(seq!['^'] + p + seq!['$']),
{
    lemma_run_literal_plain(p);
    assert(seq!['^'] + (p + seq!['$']) =~= seq!['^'] + p + seq!['$']);
}

} // verus!
