use pylex::lexer::{keyword_token, lex_source, Lexer, LexicalError};
use pylex::token::Tok;

#[test]
fn test_line_comment() {
    let source = String::from(r"99232  # Bladibla");
    let tokens = lex_source(&source).unwrap();
    assert_eq!(tokens, vec![Tok::Number { value: 99232 }]);
}

#[test]
fn test_assignment() {
    let source = String::from(r"avariable = 99 + 2-0");
    let tokens = lex_source(&source).unwrap();
    assert_eq!(
        tokens,
        vec![
            Tok::Name { name: String::from("avariable") },
            Tok::Equal,
            Tok::Number { value: 99 },
            Tok::Plus,
            Tok::Number { value: 2 },
            Tok::Minus,
            Tok::Number { value: 0 },
        ]
    );
}

#[test]
fn test_indentation() {
    let source = String::from("def foo():\n   return 99\n");
    let tokens = lex_source(&source).unwrap();
    assert_eq!(
        tokens,
        vec![
            Tok::Name { name: String::from("def") },
            Tok::Name { name: String::from("foo") },
            Tok::Lpar,
            Tok::Rpar,
            Tok::Colon,
            Tok::Newline,
            Tok::Indent,
            Tok::Name { name: String::from("return") },
            Tok::Number { value: 99 },
            Tok::Newline,
            Tok::Dedent,
        ]
    );
}

#[test]
fn test_newline_in_brackets() {
    let source = String::from("x = [\n    1,2\n]\n");
    let tokens = lex_source(&source).unwrap();
    assert_eq!(
        tokens,
        vec![
            Tok::Name { name: String::from("x") },
            Tok::Equal,
            Tok::Lsqb,
            Tok::Number { value: 1 },
            Tok::Comma,
            Tok::Number { value: 2 },
            Tok::Rsqb,
            Tok::Newline,
        ]
    );
}

#[test]
fn test_empty_input() {
    let source = String::new();
    assert_eq!(lex_source(&source), Ok(vec![]));
}

#[test]
fn test_single_number_with_leading_zeros() {
    let source = String::from("007");
    assert_eq!(lex_source(&source), Ok(vec![Tok::Number { value: 7 }]));
}

#[test]
fn test_keywords_resolved() {
    let source = String::from("for i in x: if y");
    let tokens = lex_source(&source).unwrap();
    assert_eq!(
        tokens,
        vec![
            Tok::For,
            Tok::Name { name: String::from("i") },
            Tok::In,
            Tok::Name { name: String::from("x") },
            Tok::Colon,
            Tok::If,
            Tok::Name { name: String::from("y") },
        ]
    );
}

#[test]
fn test_keyword_token_mapping() {
    assert_eq!(keyword_token("for"), Some(Tok::For));
    assert_eq!(keyword_token("in"), Some(Tok::In));
    assert_eq!(keyword_token("if"), Some(Tok::If));
    assert_eq!(keyword_token("def"), None);
    assert_eq!(keyword_token("fork"), None);
    assert_eq!(keyword_token(""), None);
}

#[test]
fn test_string_literals() {
    let source = String::from("x = 'abc' + \"d\"");
    let tokens = lex_source(&source).unwrap();
    assert_eq!(
        tokens,
        vec![
            Tok::Name { name: String::from("x") },
            Tok::Equal,
            Tok::String { value: String::from("abc") },
            Tok::Plus,
            Tok::String { value: String::from("d") },
        ]
    );
}

#[test]
fn test_empty_string_literal() {
    let source = String::from("''");
    assert_eq!(lex_source(&source), Ok(vec![Tok::String { value: String::new() }]));
}

#[test]
fn test_unterminated_string_error() {
    let source = String::from("'abc");
    assert_eq!(lex_source(&source), Err(LexicalError::UnterminatedString { offset: 0 }));
}

#[test]
fn test_numeric_overflow_error() {
    let source = String::from("99999999999");
    assert_eq!(lex_source(&source), Err(LexicalError::NumericOverflow { offset: 0 }));
}

#[test]
fn test_largest_number_accepted() {
    let source = String::from("2147483647");
    assert_eq!(lex_source(&source), Ok(vec![Tok::Number { value: 2147483647 }]));
    let over = String::from("2147483648");
    assert_eq!(lex_source(&over), Err(LexicalError::NumericOverflow { offset: 0 }));
}

#[test]
fn test_unrecognized_character_error() {
    let source = String::from("x = %");
    assert_eq!(
        lex_source(&source),
        Err(LexicalError::UnrecognizedCharacter { character: '%', offset: 4 })
    );
}

#[test]
fn test_unmatched_close_bracket_error() {
    let source = String::from(")");
    assert_eq!(lex_source(&source), Err(LexicalError::UnmatchedBracket { offset: 0 }));
}

#[test]
fn test_unclosed_bracket_error() {
    // An input with an unclosed bracket must not silently lex in full.
    let source = String::from("x = [1,2\n");
    assert_eq!(lex_source(&source), Err(LexicalError::UnclosedBracket { offset: 9 }));
}

#[test]
fn test_invalid_indentation_error() {
    let source = String::from("if x:\n    y\n  z\n");
    assert_eq!(
        lex_source(&source),
        Err(LexicalError::InvalidIndentation { offset: 12, width: 2 })
    );
}

#[test]
fn test_multiple_dedents() {
    // Leaving two block levels at once yields one Dedent per popped level.
    let source = String::from("if a:\n if b:\n  c\nd\n");
    let tokens = lex_source(&source).unwrap();
    assert_eq!(
        tokens,
        vec![
            Tok::If,
            Tok::Name { name: String::from("a") },
            Tok::Colon,
            Tok::Newline,
            Tok::Indent,
            Tok::If,
            Tok::Name { name: String::from("b") },
            Tok::Colon,
            Tok::Newline,
            Tok::Indent,
            Tok::Name { name: String::from("c") },
            Tok::Newline,
            Tok::Dedent,
            Tok::Dedent,
            Tok::Name { name: String::from("d") },
            Tok::Newline,
        ]
    );
}

#[test]
fn test_comment_swallows_line_end() {
    let source = String::from("a # rest\nb");
    let tokens = lex_source(&source).unwrap();
    assert_eq!(
        tokens,
        vec![Tok::Name { name: String::from("a") }, Tok::Name { name: String::from("b") }]
    );
}

#[test]
fn test_spans_through_next_token() {
    let mut lexer = Lexer::new("a = 1\n");
    assert_eq!(
        lexer.next_token(),
        Some(Ok((0, Tok::Name { name: String::from("a") }, 1)))
    );
    assert_eq!(lexer.next_token(), Some(Ok((2, Tok::Equal, 3))));
    assert_eq!(lexer.next_token(), Some(Ok((4, Tok::Number { value: 1 }, 5))));
    assert_eq!(lexer.next_token(), Some(Ok((5, Tok::Newline, 6))));
    assert_eq!(lexer.next_token(), None);
}

#[test]
fn test_string_span_covers_quotes() {
    let mut lexer = Lexer::new("'ab'");
    assert_eq!(
        lexer.next_token(),
        Some(Ok((0, Tok::String { value: String::from("ab") }, 4)))
    );
    assert_eq!(lexer.next_token(), None);
}

#[test]
fn test_relexing_is_identical() {
    // Two separate lexer instances over the same immutable input yield an
    // identical sequence, results and spans alike.
    let source = "def foo():\n   return 'x' + 99  # done\n";
    let mut first = Lexer::new(source);
    let mut second = Lexer::new(source);
    let mut first_seq = Vec::new();
    let mut second_seq = Vec::new();
    while let Some(r) = first.next_token() {
        first_seq.push(r);
    }
    while let Some(r) = second.next_token() {
        second_seq.push(r);
    }
    assert_eq!(first_seq, second_seq);

    let again = lex_source(&String::from(source));
    assert_eq!(lex_source(&String::from(source)), again);
}

#[test]
fn test_quote_kinds_do_not_match_each_other() {
    let source = String::from("\"a'b\"");
    assert_eq!(
        lex_source(&source),
        Ok(vec![Tok::String { value: String::from("a'b") }])
    );
}

#[test]
fn test_indent_on_first_line() {
    let source = String::from("  x");
    assert_eq!(
        lex_source(&source),
        Ok(vec![Tok::Indent, Tok::Name { name: String::from("x") }])
    );
}

#[test]
fn test_nested_brackets() {
    let source = String::from("([])");
    assert_eq!(
        lex_source(&source),
        Ok(vec![Tok::Lpar, Tok::Lsqb, Tok::Rsqb, Tok::Rpar])
    );
}
