use martial_lang::lexer::{LexError, Lexer, Position, PositionedToken, SourceChar, Token};

fn tokens_of(input: &str) -> Vec<PositionedToken> {
    let mut lexer = Lexer::new(input);
    lexer.tokenize().unwrap()
}

fn error_of(input: &str) -> LexError {
    let mut lexer = Lexer::new(input);
    lexer.tokenize().unwrap_err()
}

fn ident(name: &str) -> Token {
    Token::Identifier(name.to_string())
}

fn kinds(input: &str) -> Vec<Token> {
    tokens_of(input).into_iter().map(|t| t.token).collect()
}

#[test]
fn test_keywords() {
    let mut lexer = Lexer::new("roles state sequence");
    let tokens = lexer.tokenize().unwrap();

    assert_eq!(tokens[0].token, Token::Roles);
    assert_eq!(tokens[1].token, Token::State);
    assert_eq!(tokens[2].token, Token::Sequence);
    assert_eq!(tokens[3].token, Token::Eof);
}

#[test]
fn test_identifiers() {
    let mut lexer = Lexer::new("Top Bottom Mount123 _private");
    let tokens = lexer.tokenize().unwrap();

    assert_eq!(tokens[0].token, Token::Identifier("Top".to_string()));
    assert_eq!(tokens[1].token, Token::Identifier("Bottom".to_string()));
    assert_eq!(tokens[2].token, Token::Identifier("Mount123".to_string()));
    assert_eq!(tokens[3].token, Token::Identifier("_private".to_string()));
}

#[test]
fn test_symbols() {
    let mut lexer = Lexer::new("{ } [ ] : -> ,");
    let tokens = lexer.tokenize().unwrap();

    assert_eq!(tokens[0].token, Token::LeftBrace);
    assert_eq!(tokens[1].token, Token::RightBrace);
    assert_eq!(tokens[2].token, Token::LeftBracket);
    assert_eq!(tokens[3].token, Token::RightBracket);
    assert_eq!(tokens[4].token, Token::Colon);
    assert_eq!(tokens[5].token, Token::Arrow);
    assert_eq!(tokens[6].token, Token::Comma);
}

#[test]
fn test_comments() {
    let mut lexer = Lexer::new("roles // this is a comment\nstate");
    let tokens = lexer.tokenize().unwrap();

    assert_eq!(tokens[0].token, Token::Roles);
    assert_eq!(tokens[1].token, Token::State);
    assert_eq!(tokens[2].token, Token::Eof);
}

#[test]
fn test_state_declaration() {
    let input = r#"
state Mount roles {
    Top, Bottom
}
"#;
    let mut lexer = Lexer::new(input);
    let tokens = lexer.tokenize().unwrap();

    assert_eq!(tokens[0].token, Token::State);
    assert_eq!(tokens[1].token, Token::Identifier("Mount".to_string()));
    assert_eq!(tokens[2].token, Token::Roles);
    assert_eq!(tokens[3].token, Token::LeftBrace);
    assert_eq!(tokens[4].token, Token::Identifier("Top".to_string()));
    assert_eq!(tokens[5].token, Token::Comma);
    assert_eq!(tokens[6].token, Token::Identifier("Bottom".to_string()));
    assert_eq!(tokens[7].token, Token::RightBrace);
}

#[test]
fn test_sequence_with_arrow() {
    let input = "sequence Test:\n    Action: State[Role] -> State2[Role2]";
    let mut lexer = Lexer::new(input);
    let tokens = lexer.tokenize().unwrap();

    assert_eq!(tokens[0].token, Token::Sequence);
    assert_eq!(tokens[1].token, Token::Identifier("Test".to_string()));
    assert_eq!(tokens[2].token, Token::Colon);
    assert_eq!(tokens[3].token, Token::Identifier("Action".to_string()));
    assert_eq!(tokens[4].token, Token::Colon);
    assert_eq!(tokens[5].token, Token::Identifier("State".to_string()));
    assert_eq!(tokens[6].token, Token::LeftBracket);
    assert_eq!(tokens[7].token, Token::Identifier("Role".to_string()));
    assert_eq!(tokens[8].token, Token::RightBracket);
    assert_eq!(tokens[9].token, Token::Arrow);
}

#[test]
fn test_group_declaration() {
    let input = "group GuardFamily { ClosedGuard, OpenGuard }";
    let mut lexer = Lexer::new(input);
    let tokens = lexer.tokenize().unwrap();

    assert_eq!(tokens[0].token, Token::Group);
    assert_eq!(tokens[1].token, Token::Identifier("GuardFamily".to_string()));
    assert_eq!(tokens[2].token, Token::LeftBrace);
    assert_eq!(tokens[3].token, Token::Identifier("ClosedGuard".to_string()));
    assert_eq!(tokens[4].token, Token::Comma);
    assert_eq!(tokens[5].token, Token::Identifier("OpenGuard".to_string()));
    assert_eq!(tokens[6].token, Token::RightBrace);
}

#[test]
fn empty_input_is_one_eof_at_the_start() {
    let tokens = tokens_of("");
    assert_eq!(tokens.len(), 1);
    assert_eq!(tokens[0].token, Token::Eof);
    assert_eq!(tokens[0].position, Position { line: 1, column: 1 });
}

#[test]
fn token_list_ends_with_exactly_one_eof() {
    let tokens = kinds("roles { A, B }\nstate S\n");
    assert_eq!(tokens.iter().filter(|t| **t == Token::Eof).count(), 1);
    assert_eq!(tokens[tokens.len() - 1], Token::Eof);
    assert_eq!(tokens.len(), 9);
}

#[test]
fn tokens_carry_the_position_of_their_first_character() {
    let tokens = tokens_of("roles {\n  Top,\n\tBottom }");
    let positions: Vec<(usize, usize)> =
        tokens.iter().map(|t| (t.position.line, t.position.column)).collect();
    assert_eq!(
        positions,
        vec![(1, 1), (1, 7), (2, 3), (2, 6), (3, 2), (3, 9), (3, 10)]
    );
}

#[test]
fn eof_position_is_behind_the_last_character() {
    let tokens = tokens_of("ab\ncd");
    assert_eq!(tokens[2].token, Token::Eof);
    assert_eq!(tokens[2].position, Position { line: 2, column: 3 });
    let tokens = tokens_of("ab\n");
    assert_eq!(tokens[1].position, Position { line: 2, column: 1 });
}

#[test]
fn keywords_are_matched_with_regard_to_case() {
    assert_eq!(
        kinds("Roles STATE Sequence grouP group"),
        vec![ident("Roles"), ident("STATE"), ident("Sequence"), ident("grouP"), Token::Group, Token::Eof]
    );
}

#[test]
fn a_keyword_inside_a_longer_word_is_an_identifier() {
    assert_eq!(
        kinds("roles2 _state sequences group_"),
        vec![ident("roles2"), ident("_state"), ident("sequences"), ident("group_"), Token::Eof]
    );
}

#[test]
fn identifiers_may_hold_unicode_letters_and_digits() {
    assert_eq!(kinds("Ädel_9 großer"), vec![ident("Ädel_9"), ident("großer"), Token::Eof]);
}

#[test]
fn symbols_need_no_whitespace_around_them() {
    assert_eq!(
        kinds("A[B]->C[D],{x}:y"),
        vec![
            ident("A"),
            Token::LeftBracket,
            ident("B"),
            Token::RightBracket,
            Token::Arrow,
            ident("C"),
            Token::LeftBracket,
            ident("D"),
            Token::RightBracket,
            Token::Comma,
            Token::LeftBrace,
            ident("x"),
            Token::RightBrace,
            Token::Colon,
            ident("y"),
            Token::Eof,
        ]
    );
}

#[test]
fn comments_run_to_the_end_of_the_line() {
    assert_eq!(kinds("// only a comment"), vec![Token::Eof]);
    assert_eq!(kinds("//\n//x\n  // y\nstate"), vec![Token::State, Token::Eof]);
    assert_eq!(kinds("a//b\nc"), vec![ident("a"), ident("c"), Token::Eof]);
}

#[test]
fn unicode_whitespace_is_skipped() {
    assert_eq!(kinds("\u{a0}roles\u{2003}\r\n\tstate\u{3000}"), vec![Token::Roles, Token::State, Token::Eof]);
}

#[test]
fn a_single_slash_is_an_unexpected_character() {
    let e = error_of("roles / state");
    assert_eq!(e.message, "Unexpected character: '/'");
    assert_eq!(e.position, Position { line: 1, column: 7 });
}

#[test]
fn unexpected_character_is_named_at_its_position() {
    let e = error_of("state A\n  #");
    assert_eq!(e.message, "Unexpected character: '#'");
    assert_eq!(e.position, Position { line: 2, column: 3 });
}

#[test]
fn a_word_may_start_with_a_digit() {
    let tokens = tokens_of("9lives");
    assert_eq!(tokens.len(), 2);
    assert_eq!(tokens[0].token, ident("9lives"));
    assert_eq!(tokens[0].position, Position { line: 1, column: 1 });
    assert_eq!(tokens[1].token, Token::Eof);
    assert_eq!(tokens[1].position, Position { line: 1, column: 7 });
    assert_eq!(kinds("42 7_ _7 ٣"), vec![ident("42"), ident("7_"), ident("_7"), ident("٣"), Token::Eof]);
}

#[test]
fn dash_without_arrow_head_reports_what_follows() {
    let e = error_of("A - B");
    assert_eq!(e.message, "Expected '>' after '-', got Some(' ')");
    assert_eq!(e.position, Position { line: 1, column: 3 });
    let e = error_of("A -x");
    assert_eq!(e.message, "Expected '>' after '-', got Some('x')");
    let e = error_of("A -\n");
    assert_eq!(e.message, "Expected '>' after '-', got Some('\\n')");
}

#[test]
fn dash_at_the_end_of_input_reports_none() {
    let e = error_of("A -");
    assert_eq!(e.message, "Expected '>' after '-', got None");
    assert_eq!(e.position, Position { line: 1, column: 3 });
}

#[test]
fn next_token_reads_one_token_at_a_time() {
    let mut lexer = Lexer::new("  state  Mount ");
    let first = lexer.next_token().unwrap();
    assert_eq!(first.token, Token::State);
    assert_eq!(first.position, Position { line: 1, column: 3 });
    let second = lexer.next_token().unwrap();
    assert_eq!(second.token, ident("Mount"));
    assert_eq!(second.position, Position { line: 1, column: 10 });
    assert_eq!(lexer.next_token().unwrap().token, Token::Eof);
    assert_eq!(lexer.next_token().unwrap().token, Token::Eof);
}

#[test]
fn an_unexpected_character_is_not_consumed() {
    let mut lexer = Lexer::new("?");
    let first = lexer.next_token().unwrap_err();
    let second = lexer.next_token().unwrap_err();
    assert_eq!(first, second);
}

#[test]
fn a_dash_is_consumed_by_its_error() {
    let mut lexer = Lexer::new("-a");
    assert!(lexer.next_token().is_err());
    assert_eq!(lexer.next_token().unwrap().token, ident("a"));
}

#[test]
fn tokenize_stops_at_the_first_error() {
    let mut lexer = Lexer::new("roles ? state");
    assert!(lexer.tokenize().is_err());
    let e = lexer.next_token().unwrap_err();
    assert_eq!(e.position, Position { line: 1, column: 7 });
}

#[test]
fn classification_follows_the_standard_library() {
    let c = SourceChar::of('x');
    assert_eq!(c, SourceChar { ch: 'x', whitespace: false, alphanumeric: true });
    let c = SourceChar::of('7');
    assert_eq!(c, SourceChar { ch: '7', whitespace: false, alphanumeric: true });
    let c = SourceChar::of('\n');
    assert_eq!(c, SourceChar { ch: '\n', whitespace: true, alphanumeric: false });
    let c = SourceChar::of('{');
    assert_eq!(c, SourceChar { ch: '{', whitespace: false, alphanumeric: false });
    let c = SourceChar::of('_');
    assert_eq!(c, SourceChar { ch: '_', whitespace: false, alphanumeric: false });
}

#[test]
fn a_lexer_goes_by_the_classification_it_is_given() {
    let plain = |ch: char| SourceChar { ch, whitespace: false, alphanumeric: false };
    let word = |ch: char| SourceChar { ch, whitespace: false, alphanumeric: true };
    let blank = |ch: char| SourceChar { ch, whitespace: true, alphanumeric: false };
    let source = vec![word('#'), word('1'), blank('x'), plain('{'), plain('a')];
    let mut lexer = Lexer::from_classified(source);
    assert_eq!(lexer.next_token().unwrap().token, ident("#1"));
    let brace = lexer.next_token().unwrap();
    assert_eq!(brace.token, Token::LeftBrace);
    assert_eq!(brace.position, Position { line: 1, column: 4 });
    let e = lexer.next_token().unwrap_err();
    assert_eq!(e.message, "Unexpected character: 'a'");
}

#[test]
fn a_word_is_the_longest_run_of_word_characters() {
    let word = |ch: char| SourceChar { ch, whitespace: false, alphanumeric: true };
    let plain = |ch: char| SourceChar { ch, whitespace: false, alphanumeric: false };
    let mut lexer = Lexer::from_classified(vec![word('a'), plain('_'), word('b'), plain(':'), word('c')]);
    assert_eq!(lexer.next_token().unwrap().token, ident("a_b"));
    assert_eq!(lexer.next_token().unwrap().token, Token::Colon);
    assert_eq!(lexer.next_token().unwrap().token, ident("c"));
    assert_eq!(lexer.next_token().unwrap().token, Token::Eof);
}

#[test]
fn symbols_come_before_words() {
    let odd = SourceChar { ch: '{', whitespace: false, alphanumeric: true };
    let mut lexer = Lexer::from_classified(vec![odd]);
    assert_eq!(lexer.next_token().unwrap().token, Token::LeftBrace);
}

#[test]
fn tokens_are_written_as_in_the_source() {
    let all = vec![
        (Token::Roles, "roles"),
        (Token::State, "state"),
        (Token::Sequence, "sequence"),
        (Token::Group, "group"),
        (ident("Mount"), "Mount"),
        (Token::LeftBrace, "{"),
        (Token::RightBrace, "}"),
        (Token::LeftBracket, "["),
        (Token::RightBracket, "]"),
        (Token::Colon, ":"),
        (Token::Arrow, "->"),
        (Token::Comma, ","),
        (Token::Eof, "EOF"),
    ];
    for (token, text) in all {
        assert_eq!(token.to_string(), text);
    }
}

#[test]
fn same_token_compares_kind_and_name() {
    assert!(Token::Arrow.same(&Token::Arrow));
    assert!(!Token::Arrow.same(&Token::Comma));
    assert!(ident("a").same(&ident("a")));
    assert!(!ident("a").same(&ident("b")));
    assert!(!ident("roles").same(&Token::Roles));
}

#[test]
fn positions_and_errors_are_written_for_the_user() {
    assert_eq!(Position { line: 3, column: 14 }.to_string(), "line 3, column 14");
    let e = LexError::unexpected_character('%', Position { line: 10, column: 1 });
    assert_eq!(e.to_string(), "Lexer error at line 10, column 1: Unexpected character: '%'");
    let e = LexError::malformed_arrow("None", Position { line: 1, column: 200 });
    assert_eq!(e.to_string(), "Lexer error at line 1, column 200: Expected '>' after '-', got None");
}

#[test]
fn clones_are_equal() {
    let tokens = tokens_of("state Mount");
    let copy: Vec<PositionedToken> = tokens.iter().map(|t| t.clone()).collect();
    assert_eq!(tokens, copy);
    let e = error_of("?");
    assert_eq!(e.clone(), e);
}
