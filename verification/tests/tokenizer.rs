use rad_lang::tokenizer::{tokenize, Token};

fn expect_ok(input: &str) -> Vec<Token> {
    match tokenize(input) {
        Ok(tokens) => tokens,
        Err(e) => panic!("tokenize failed on {:?}: line {:?}", input, e.line),
    }
}

fn expect_err_line(input: &str) -> String {
    match tokenize(input) {
        Ok(tokens) => panic!("tokenize accepted {:?}: {:?}", input, tokens),
        Err(e) => e.line,
    }
}

#[test]
fn comment_line() {
    let tokens = expect_ok("// hello");
    assert_eq!(tokens.len(), 1);
    assert!(matches!(tokens[0], Token::Comment));
}

#[test]
fn version_line() {
    let tokens = expect_ok("[version 1.2.3]");
    assert_eq!(tokens.len(), 1);
    match &tokens[0] {
        Token::VersionSpecifier(v) => assert_eq!(*v, semver::Version::new(1, 2, 3)),
        other => panic!("expected a version specifier, got {:?}", other),
    }
}

#[test]
fn version_line_with_prerelease() {
    let tokens = expect_ok("[version 0.9.0-beta.1]");
    assert_eq!(tokens.len(), 1);
    match &tokens[0] {
        Token::VersionSpecifier(v) => {
            assert_eq!(*v, semver::Version::parse("0.9.0-beta.1").unwrap());
            assert_eq!(v.pre.as_str(), "beta.1");
        }
        other => panic!("expected a version specifier, got {:?}", other),
    }
}

#[test]
fn namespace_line() {
    let tokens = expect_ok("[mynamespace]");
    assert_eq!(tokens.len(), 1);
    match &tokens[0] {
        Token::NameSpace(name) => assert_eq!(name, "mynamespace"),
        other => panic!("expected a namespace, got {:?}", other),
    }
}

#[test]
fn identifier_line() {
    let tokens = expect_ok("plain identifier");
    assert_eq!(tokens.len(), 1);
    match &tokens[0] {
        Token::Identifier(text) => assert_eq!(text, "plain identifier"),
        other => panic!("expected an identifier, got {:?}", other),
    }
}

#[test]
fn malformed_version_fails() {
    let line = expect_err_line("[version not-a-version]");
    assert_eq!(line, "[version not-a-version]");
}

#[test]
fn malformed_version_empty_body_fails() {
    let line = expect_err_line("[version ]");
    assert_eq!(line, "[version ]");
}

#[test]
fn first_malformed_version_is_reported() {
    let input = "[version 1.0.0]\n[version bad]\n[version also bad]";
    let line = expect_err_line(input);
    assert_eq!(line, "[version bad]");
}

#[test]
fn empty_input_yields_no_tokens() {
    let tokens = expect_ok("");
    assert_eq!(tokens.len(), 0);
}

#[test]
fn whitespace_only_lines_yield_no_tokens() {
    let tokens = expect_ok("   \n\t\n  \r\n");
    assert_eq!(tokens.len(), 0);
}

#[test]
fn one_token_per_line_in_order() {
    let input = "// header\n[version 0.2.0]\n\n[space]\nname one\n  name two  \n";
    let tokens = expect_ok(input);
    assert_eq!(tokens.len(), 5);
    assert!(matches!(tokens[0], Token::Comment));
    match &tokens[1] {
        Token::VersionSpecifier(v) => assert_eq!(*v, semver::Version::new(0, 2, 0)),
        other => panic!("expected a version specifier, got {:?}", other),
    }
    match &tokens[2] {
        Token::NameSpace(name) => assert_eq!(name, "space"),
        other => panic!("expected a namespace, got {:?}", other),
    }
    match &tokens[3] {
        Token::Identifier(text) => assert_eq!(text, "name one"),
        other => panic!("expected an identifier, got {:?}", other),
    }
    match &tokens[4] {
        Token::Identifier(text) => assert_eq!(text, "name two"),
        other => panic!("expected an identifier, got {:?}", other),
    }
}

#[test]
fn carriage_returns_are_trimmed() {
    let tokens = expect_ok("// a\r\n[x]\r\n");
    assert_eq!(tokens.len(), 2);
    assert!(matches!(tokens[0], Token::Comment));
    match &tokens[1] {
        Token::NameSpace(name) => assert_eq!(name, "x"),
        other => panic!("expected a namespace, got {:?}", other),
    }
}

#[test]
fn concatenating_files_concatenates_tokens() {
    let first = "[version 1.0.0]\n// one\n";
    let second = "[ns]\nsome name";
    let mut joined = String::from(first);
    joined.push_str(second);
    let tokens_first = expect_ok(first);
    let tokens_second = expect_ok(second);
    let tokens_joined = expect_ok(&joined);
    assert_eq!(tokens_joined.len(), tokens_first.len() + tokens_second.len());
    let expected: Vec<&Token> = tokens_first.iter().chain(tokens_second.iter()).collect();
    for (got, want) in tokens_joined.iter().zip(expected) {
        match (got, want) {
            (Token::Comment, Token::Comment) => {}
            (Token::VersionSpecifier(a), Token::VersionSpecifier(b)) => assert_eq!(a, b),
            (Token::NameSpace(a), Token::NameSpace(b)) => assert_eq!(a, b),
            (Token::Identifier(a), Token::Identifier(b)) => assert_eq!(a, b),
            (a, b) => panic!("token kinds differ: {:?} vs {:?}", a, b),
        }
    }
}

#[test]
fn printed_version_reparses_to_same_value() {
    let text = "1.2.3-alpha.1+build.7";
    let tokens = expect_ok("[version 1.2.3-alpha.1+build.7]");
    match &tokens[0] {
        Token::VersionSpecifier(v) => {
            let printed = v.to_string();
            let reparsed = semver::Version::parse(&printed).unwrap();
            assert_eq!(reparsed, semver::Version::parse(text).unwrap());
            assert_eq!(reparsed, *v);
        }
        other => panic!("expected a version specifier, got {:?}", other),
    }
}

#[test]
fn unterminated_bracket_is_identifier() {
    let tokens = expect_ok("[oops");
    assert_eq!(tokens.len(), 1);
    match &tokens[0] {
        Token::Identifier(text) => assert_eq!(text, "[oops"),
        other => panic!("expected an identifier, got {:?}", other),
    }
}

#[test]
fn empty_brackets_are_a_namespace() {
    let tokens = expect_ok("[]");
    assert_eq!(tokens.len(), 1);
    match &tokens[0] {
        Token::NameSpace(name) => assert_eq!(name, ""),
        other => panic!("expected a namespace, got {:?}", other),
    }
}

#[test]
fn comment_needs_trailing_space() {
    let tokens = expect_ok("//x");
    assert_eq!(tokens.len(), 1);
    match &tokens[0] {
        Token::Identifier(text) => assert_eq!(text, "//x"),
        other => panic!("expected an identifier, got {:?}", other),
    }
}

#[test]
fn bracketed_version_word_is_a_namespace() {
    let tokens = expect_ok("[version]");
    assert_eq!(tokens.len(), 1);
    match &tokens[0] {
        Token::NameSpace(name) => assert_eq!(name, "version"),
        other => panic!("expected a namespace, got {:?}", other),
    }
}

#[test]
fn surrounding_whitespace_is_trimmed() {
    let tokens = expect_ok("   hello   ");
    assert_eq!(tokens.len(), 1);
    match &tokens[0] {
        Token::Identifier(text) => assert_eq!(text, "hello"),
        other => panic!("expected an identifier, got {:?}", other),
    }
}
