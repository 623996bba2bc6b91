use rad_lang::lines::{split_into_lines, trim_of};
use rad_lang::tokenizer::{remove_version_specifier_whitespace, Token};

#[test]
fn remove_version_specifier_whitespace_extracts_the_version_text() {
    assert_eq!(remove_version_specifier_whitespace("[version 1.2.3]"), "1.2.3");
    assert_eq!(remove_version_specifier_whitespace("[version 0.9.0-beta.1]"), "0.9.0-beta.1");
}

#[test]
fn try_from_classifies_a_single_line() {
    match Token::try_from("// note") {
        Ok(Token::Comment) => {}
        other => panic!("expected a comment, got {:?}", other),
    }
    match Token::try_from("[version 2.0.0]") {
        Ok(Token::VersionSpecifier(v)) => assert_eq!(v, semver::Version::new(2, 0, 0)),
        other => panic!("expected a version specifier, got {:?}", other),
    }
}

#[test]
fn try_from_rejects_a_degenerate_version_line() {
    match Token::try_from("[version ") {
        Err(e) => assert_eq!(e.line, "[version "),
        Ok(t) => panic!("expected an error, got {:?}", t),
    }
}

#[test]
fn trim_removes_surrounding_whitespace_only() {
    assert_eq!(trim_of("  a b \t"), "a b");
    assert_eq!(trim_of("\r\n"), "");
    assert_eq!(trim_of("x"), "x");
}

#[test]
fn split_keeps_every_segment() {
    assert_eq!(split_into_lines("a\nb"), vec!["a".to_string(), "b".to_string()]);
    assert_eq!(split_into_lines("a\n"), vec!["a".to_string(), "".to_string()]);
    assert_eq!(split_into_lines(""), vec!["".to_string()]);
}
