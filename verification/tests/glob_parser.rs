use glob::glob_parser::GlobParseError;
use glob::glob_parser::GlobParseError::UnknownEscapeSequence;
use glob::glob_parser::GlobParseError::UnterminatedEscapeSequence;
use glob::glob_parser::Token;
use glob::glob_parser::Token::ExactLengthWildcard;
use glob::glob_parser::Token::Literal;
use glob::glob_parser::Token::MinLengthWildcard;
use glob::glob_parser::parse_glob_string;
use glob::multislice::MultiSlice;

fn test_single_token(glob_string: &str, token: Token) {
    let mut tokens = Vec::new();
    tokens.push(token);
    test_multiple_tokens(glob_string, &tokens);
}

fn test_multiple_tokens(glob_string: &str, tokens: &[Token]) {
    let result = parse_glob_string(glob_string);
    assert!(result.is_ok());
    match result {
        Ok(token_sequence) => {
            assert_eq!(token_sequence.len(), tokens.len());
            let mut i = 0;
            while i < tokens.len() {
                assert_eq!(&token_sequence[i], &tokens[i]);
                i += 1;
            }
        }
        Err(_) => panic!("previous assert should prevent this"),
    }
}

fn test_parse_failure(glob_string: &str, expected_error: GlobParseError) {
    let result = parse_glob_string(glob_string);
    assert!(result.is_err());
    match result {
        Ok(_) => panic!("previous assert should prevent this"),
        Err(err) => assert_eq!(err, expected_error),
    }
}

#[test]
fn test_parse_only_literal() {
    test_single_token("abc", Literal(MultiSlice::from("abc")));
}

#[test]
fn test_parse_only_asterisk() {
    test_single_token("*", MinLengthWildcard(0));
}

#[test]
fn test_parse_only_question_mark() {
    test_single_token("?", ExactLengthWildcard(1));
}

#[test]
fn test_parse_multiple_wildcards() {
    test_single_token("?*?**?", MinLengthWildcard(3));
}

#[test]
fn test_mixed_wildcard_literal_wildcard() {
    test_multiple_tokens(
        "*.yam?",
        &[
            Token::MinLengthWildcard(0),
            Token::Literal(MultiSlice::from(".yam")),
            Token::ExactLengthWildcard(1),
        ],
    );
}

#[test]
fn test_escaped_asterisk() {
    test_single_token("abc\\*def", Token::Literal(MultiSlice::from("abc*def")));
}

#[test]
fn test_escaped_question_mark() {
    test_multiple_tokens(
        "Hello *, how are you\\?",
        &[
            Literal(MultiSlice::from("Hello ")),
            Token::MinLengthWildcard(0),
            Token::Literal(MultiSlice::from(", how are you?")),
        ],
    );
}

#[test]
fn test_escaped_backslash() {
    test_single_token("\\\\", Token::Literal(MultiSlice::from("\\")));
}

#[test]
fn test_failure_with_single_backslash() {
    test_parse_failure("\\", UnterminatedEscapeSequence(0));
}

#[test]
fn test_failure_with_backslash_at_end() {
    test_parse_failure("abc\\", UnterminatedEscapeSequence(3));
}

#[test]
fn test_failure_with_wildcards_and_backslash_at_end() {
    test_parse_failure("*-page-*.txt\\", UnterminatedEscapeSequence(12));
}

#[test]
fn test_failure_with_uneven_number_of_backslashes_at_end() {
    test_parse_failure("a\\\\\\", UnterminatedEscapeSequence(3));
}

#[test]
fn test_success_with_two_backslashes_at_end() {
    test_single_token("a\\\\", Token::Literal(MultiSlice::from("a\\")));
}

#[test]
fn test_success_with_even_number_of_backslashes_at_end() {
    test_multiple_tokens("a\\\\\\\\", &[Literal(MultiSlice::from("a\\\\"))]);
}

#[test]
fn test_failure_with_illegal_escape_sequence() {
    test_parse_failure("\\n", UnknownEscapeSequence(0, String::from("\\n")));
}

#[test]
fn test_wild_mixture() {
    let glob_str = "ab\\*c-*-?-???-?*?-de\\\\f-gh\\?i.foobar\\*?";
    let tokens = [
        Literal(MultiSlice::from("ab*c-")),
        MinLengthWildcard(0), // *
        Literal(MultiSlice::from("-")),
        ExactLengthWildcard(1), // ?
        Literal(MultiSlice::from("-")),
        ExactLengthWildcard(3), // ???
        Literal(MultiSlice::from("-")),
        MinLengthWildcard(2), // ?*?
        Literal(MultiSlice::from("-de\\f-gh?i.foobar*")),
        ExactLengthWildcard(1), // ?
    ];
    test_multiple_tokens(glob_str, &tokens);
}

#[test]
fn test_parsed_literal_is_split_by_escapes_but_compares_whole() {
    // "a\*b" parses to one literal token whose fragments are "a", "*", "b",
    // but the token equals a literal built from the single string "a*b".
    let result = parse_glob_string("a\\*b");
    assert!(result.is_ok());
    let tokens = result.unwrap();
    assert_eq!(tokens.len(), 1);
    assert_eq!(&tokens[0], &Literal(MultiSlice::from("a*b")));
}

#[test]
fn test_failure_with_escaped_space() {
    test_parse_failure("a\\ b", UnknownEscapeSequence(1, String::from("\\ ")));
}
