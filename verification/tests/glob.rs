use fnmatch_regex::error::ParseError;
use fnmatch_regex::glob::glob_to_regex;
use fnmatch_regex::glob::glob_to_regex_string;

fn matched(pattern: &str, text: &str) -> bool {
    let re = glob_to_regex(pattern).unwrap();
    re.is_match(text)
}

#[test]
fn plain_literal_matches_only_itself() {
    assert!(matched("con!st", "con!st"));
    assert!(!matched("con!st", "con.st"));
    assert!(!matched("con!st", "con!s"));
    assert!(!matched("con!st", "xcon!st"));
    assert_eq!(glob_to_regex_string("con!st").unwrap(), "^con!st$");
}

#[test]
fn question_mark_never_matches_separator() {
    assert!(matched("?", "a"));
    assert!(matched("?", "."));
    assert!(!matched("?", "/"));
    assert!(!matched("?", ""));
    assert!(!matched("?", "ab"));
    assert_eq!(glob_to_regex_string("?").unwrap(), "^[^/]$");
}

#[test]
fn star_never_matches_separator() {
    assert!(matched("*", ""));
    assert!(matched("*", "abc"));
    assert!(!matched("*", "a/b"));
    assert!(!matched("*", "/"));
    assert_eq!(glob_to_regex_string("*").unwrap(), "^[^/]*$");
}

#[test]
fn class_canonicalization_is_order_insensitive() {
    let one = glob_to_regex_string("[ab0-9c-]").unwrap();
    let other = glob_to_regex_string("[0-9abc-]").unwrap();
    assert_eq!(one, other);
    assert_eq!(one, "^[abc0-9-]$");
    for text in ["a", "b", "c", "5", "-"] {
        assert!(matched("[ab0-9c-]", text));
        assert!(matched("[0-9abc-]", text));
    }
    for text in ["d", "/", "", "ab"] {
        assert!(!matched("[ab0-9c-]", text));
        assert!(!matched("[0-9abc-]", text));
    }
}

#[test]
fn classes_never_accept_separator() {
    assert!(!matched("[.-0]", "/"));
    assert!(matched("[.-0]", "."));
    assert!(matched("[.-0]", "0"));
    assert!(!matched("[!a]", "/"));
    assert!(matched("[!a]", "b"));
    assert!(!matched("[!a]", "a"));
}

#[test]
fn alternation_deduplicates() {
    let doubled = glob_to_regex_string("{a,a,b}").unwrap();
    let plain = glob_to_regex_string("{a,b}").unwrap();
    assert_eq!(doubled, plain);
    assert_eq!(plain, "^(a|b)$");
    for text in ["a", "b"] {
        assert!(matched("{a,a,b}", text));
        assert!(matched("{a,b}", text));
    }
    for text in ["c", "", "ab"] {
        assert!(!matched("{a,a,b}", text));
        assert!(!matched("{a,b}", text));
    }
}

#[test]
fn literal_dot_is_not_a_wildcard() {
    assert!(matched("con.st", "con.st"));
    assert!(!matched("con.st", "conAst"));
    assert!(!matched("con.st", "con!st"));
    assert!(!matched("con.st", "con.stant"));
    assert_eq!(glob_to_regex_string("con.st").unwrap(), "^con\\.st$");
}

#[test]
fn question_mark_within_path() {
    assert!(matched("this/is/?.test", "this/is/a.test"));
    assert!(!matched("this/is/?.test", "this/is/not/a.test"));
    assert!(!matched("this/is/?.test", "this/is/aa.test"));
}

#[test]
fn digit_class_and_negation() {
    assert!(matched("[0-9]", "5"));
    assert!(!matched("[0-9]", "/"));
    assert!(!matched("[0-9]", ""));
    assert!(!matched("[0-9]", "50"));
    assert!(matched("[!0-9]", "a"));
    assert!(!matched("[!0-9]", "5"));
    assert!(!matched("[!0-9]", "/"));
    assert_eq!(glob_to_regex_string("[!0-9]").unwrap(), "^[^/0-9]$");
}

#[test]
fn leading_bracket_is_a_member() {
    assert!(matched("[]]", "]"));
    assert!(!matched("[]]", "["));
    assert!(!matched("[]]", ""));
    assert!(!matched("[]]", "]]"));
    assert_eq!(glob_to_regex_string("[]]").unwrap(), "^[\\]]$");
}

#[test]
fn alternation_branches_are_literal() {
    let pattern = "x-{th?is,that,...*}";
    assert!(matched(pattern, "x-th?is"));
    assert!(matched(pattern, "x-that"));
    assert!(matched(pattern, "x-...*"));
    assert!(!matched(pattern, "x-this"));
    assert!(!matched(pattern, "x-thais"));
}

#[test]
fn bare_escape_is_rejected() {
    assert!(matches!(glob_to_regex_string("\\"), Err(ParseError::BareEscape)));
    assert!(matches!(glob_to_regex("abc\\"), Err(ParseError::BareEscape)));
}

#[test]
fn unclosed_class_is_rejected() {
    assert!(matches!(glob_to_regex_string("[0-9"), Err(ParseError::UnclosedClass)));
    assert!(matches!(glob_to_regex_string("["), Err(ParseError::UnclosedClass)));
    assert!(matches!(glob_to_regex_string("[!]"), Err(ParseError::UnclosedClass)));
    assert!(matches!(glob_to_regex_string("[ab\\"), Err(ParseError::UnclosedClass)));
}

#[test]
fn unclosed_alternation_is_rejected() {
    assert!(matches!(glob_to_regex_string("{a,b"), Err(ParseError::UnclosedAlternation)));
    assert!(matches!(glob_to_regex_string("{"), Err(ParseError::UnclosedAlternation)));
    assert!(matches!(glob_to_regex_string("{a\\"), Err(ParseError::UnclosedAlternation)));
}

#[test]
fn reversed_range_is_rejected() {
    assert!(matches!(glob_to_regex_string("[9-0]"), Err(ParseError::ReversedRange('9', '0'))));
}

#[test]
fn range_after_range_is_rejected() {
    assert!(matches!(
        glob_to_regex_string("[a-z-b]"),
        Err(ParseError::RangeAfterRange('a', 'z'))
    ));
}

#[test]
fn unsupported_constructs_are_rejected() {
    assert!(matches!(glob_to_regex_string("{a[b}"), Err(ParseError::NotImplemented)));
    assert!(matches!(glob_to_regex_string("[a-\\n]"), Err(ParseError::NotImplemented)));
}

#[test]
fn engine_rejection_surfaces_as_invalid_regex() {
    let err = glob_to_regex("(").unwrap_err();
    match err {
        ParseError::InvalidRegex(src, _) => assert_eq!(src, "^($"),
        other => panic!("unexpected error: {:?}", other),
    }
}

#[test]
fn letter_escapes_denote_control_characters() {
    assert!(matched("\\n", "\n"));
    assert!(!matched("\\n", "n"));
    assert!(matched("a\\tb", "a\tb"));
    assert!(matched("[\\n]", "\n"));
    assert!(!matched("[\\n]", "n"));
}

#[test]
fn escaped_wildcards_are_literal() {
    assert!(matched("\\?", "?"));
    assert!(!matched("\\?", "a"));
    assert!(matched("\\*", "*"));
    assert!(!matched("\\*", "ab"));
}

#[test]
fn trailing_dash_in_class_is_literal() {
    assert!(matched("[a-]", "a"));
    assert!(matched("[a-]", "-"));
    assert!(!matched("[a-]", "b"));
    assert_eq!(glob_to_regex_string("[a-]").unwrap(), "^[a-]$");
}

#[test]
fn unterminated_range_dash_is_literal() {
    assert!(matched("[a-]", "-"));
    assert!(matched("[0-9-]", "-"));
    assert!(matched("[0-9-]", "5"));
    assert!(!matched("[0-9-]", "a"));
}

#[test]
fn range_spanning_separator_excludes_it() {
    assert!(matched("c[--9]x", "c-x"));
    assert!(matched("c[--9]x", "c.x"));
    assert!(matched("c[--9]x", "c7x"));
    assert!(!matched("c[--9]x", "c/x"));
    assert_eq!(glob_to_regex_string("[--9]").unwrap(), "^[--.0-9]$");
}

#[test]
fn empty_pattern_matches_empty_text() {
    assert!(matched("", ""));
    assert!(!matched("", "a"));
    assert_eq!(glob_to_regex_string("").unwrap(), "^$");
}

#[test]
fn empty_braces_are_literal() {
    assert!(matched("{}", "{}"));
    assert!(!matched("{}", ""));
    assert_eq!(glob_to_regex_string("{}").unwrap(), "^\\{}$");
}

#[test]
fn empty_branch_matches_empty_text() {
    assert!(matched("x{a,}", "xa"));
    assert!(matched("x{a,}", "x"));
    assert!(!matched("x{a,}", "xb"));
    assert_eq!(glob_to_regex_string("x{a,}").unwrap(), "^x(|a)$");
}

#[test]
fn escaped_comma_stays_in_branch() {
    assert!(matched("{a\\,b}", "a,b"));
    assert!(!matched("{a\\,b}", "a"));
    assert!(!matched("{a\\,b}", "b"));
}

#[test]
fn kernel_package_example() {
    let expr = glob_to_regex_string("linux-[0-9]*-{generic,aws}").unwrap();
    assert_eq!(expr, "^linux-[0-9][^/]*-(aws|generic)$");
    for name in ["linux-5.2.27b1-generic", "linux-4.0.12-aws"] {
        assert!(matched("linux-[0-9]*-{generic,aws}", name));
    }
    assert!(!matched("linux-[0-9]*-{generic,aws}", "linux-unsigned-5.2.27b1-generic"));
}

#[test]
fn expression_operators_pass_through() {
    assert!(matched("a+", "aa"));
    assert!(!matched("a+", "a+"));
    assert_eq!(glob_to_regex_string("a+").unwrap(), "^a+$");
}

#[test]
fn negated_class_with_bracket_member() {
    assert!(matched("[!]]", "a"));
    assert!(!matched("[!]]", "]"));
    assert!(!matched("[!]]", "/"));
}
