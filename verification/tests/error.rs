use fnmatch_regex::error::Error;
use fnmatch_regex::error::parse_error;
use fnmatch_regex::glob::glob_to_regex_string;

#[test]
fn error_carries_its_message() {
    let e = Error::new(String::from("pattern went wrong"));
    assert_eq!(e.message().as_str(), "pattern went wrong");
}

#[test]
fn boxed_error_carries_its_message() {
    let b = Error::boxed(String::from("still wrong"));
    assert_eq!(b.message().as_str(), "still wrong");
}

#[test]
fn parse_error_reports_the_message() {
    let b = parse_error(String::from("cannot parse this"));
    assert_eq!(b.message().as_str(), "cannot parse this");
}

#[test]
fn parse_failures_render_to_text() {
    let bare = glob_to_regex_string("\\").unwrap_err();
    assert_eq!(bare.message(), "bare escape at the end of the pattern");
    assert_eq!(
        bare.to_error().message().as_str(),
        "bare escape at the end of the pattern"
    );
    let unclosed = glob_to_regex_string("[0-9").unwrap_err();
    assert_eq!(unclosed.message(), "unclosed character class");
    let alternation = glob_to_regex_string("{a,b").unwrap_err();
    assert_eq!(alternation.message(), "unclosed alternation");
    let reversed = glob_to_regex_string("[9-0]").unwrap_err();
    assert_eq!(reversed.message(), "reversed character range");
    let doubled = glob_to_regex_string("[a-z-b]").unwrap_err();
    assert_eq!(doubled.message(), "range following a range");
    let unsupported = glob_to_regex_string("{a[b}").unwrap_err();
    assert_eq!(unsupported.message(), "construct not implemented");
}
