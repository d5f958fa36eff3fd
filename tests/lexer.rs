use sql_lexer::{
    lex, lex_character_delimited, lex_identifier, lex_keyword, lex_numeric, lex_string,
    lex_symbol, Cursor, Keyword, LexError, Location, Symbol, Token, TokenKind,
};

fn make_cursor() -> Cursor {
    Cursor {
        pointer: 0,
        loc: Location { line: 1, col: 1 },
    }
}

fn pairs(tokens: &[Token]) -> Vec<(String, TokenKind)> {
    tokens.iter().map(|t| (t.value.clone(), t.kind)).collect()
}

#[test]
fn test_integer() {
    let source = "123";
    let result = lex_numeric(source, make_cursor());
    assert!(result.is_some(), "Expected to lex an integer");
    let (token, cur) = result.unwrap();
    println!("{:?}", token);
    println!("{:?}", cur);
    assert_eq!(token.value, "123");
    assert_eq!(token.kind, TokenKind::NumericLiteral);
    assert_eq!(cur.pointer, source.len());
}

#[test]
fn test_float() {
    let source = "3.14";
    let result = lex_numeric(source, make_cursor());
    assert!(result.is_some(), "Expected to lex a float");
    let (token, cur) = result.unwrap();
    println!("{}", token.render());
    assert_eq!(token.value, "3.14");
    assert_eq!(token.kind, TokenKind::NumericLiteral);
    assert_eq!(cur.pointer, source.len());
}

#[test]
fn test_scientific_notation() {
    let source = "2.5e10";
    let result = lex_numeric(source, make_cursor());
    assert!(result.is_some(), "Expected to lex scientific notation");
    let (token, cur) = result.unwrap();
    println!("{}", token.render());
    println!("{:?}", cur);
    assert_eq!(token.value, "2.5e10");
    assert_eq!(token.kind, TokenKind::NumericLiteral);
    assert_eq!(cur.pointer, source.len());
}

#[test]
fn test_scientific_notation_with_sign() {
    let source = "1e-5";
    let result = lex_numeric(source, make_cursor());
    assert!(result.is_some(), "Expected to lex scientific notation with sign");
    let (token, cur) = result.unwrap();
    println!("{}", token.render());
    println!("{:?}", cur);
    assert_eq!(token.value, "1e-5");
    assert_eq!(token.kind, TokenKind::NumericLiteral);
    assert_eq!(cur.pointer, source.len());
}

#[test]
fn test_string() {
    let source = "\'SQL\'";
    let result = lex_string(source, make_cursor());
    assert!(matches!(result, Ok(Some(_))), "Expected to lex a string");
    let (token, cur) = result.unwrap().unwrap();
    println!("{}", token.render());
    println!("{:?}", cur);
    assert_eq!(token.value, "SQL");
    assert_eq!(token.kind, TokenKind::StringLiteral);
    // The cursor stands just past the closing quote.
    assert_eq!(cur.pointer, source.len());
}

#[test]
fn digits_lex_whole() {
    for d in ["0", "7", "42", "0012", "9876543210"] {
        let (token, cur) = lex_numeric(d, make_cursor()).unwrap();
        assert_eq!(token.value, d);
        assert_eq!(cur.pointer, d.len());
        assert_eq!(cur.loc, Location { line: 1, col: 1 + d.len() });
    }
}

#[test]
fn numeric_exponent_at_end_fails() {
    assert!(lex_numeric("1e", make_cursor()).is_none());
    assert!(lex_numeric("2.5E", make_cursor()).is_none());
}

#[test]
fn numeric_second_period_fails_whole_match() {
    assert!(lex_numeric("1.2.3", make_cursor()).is_none());
    assert!(lex_numeric("1e5.2", make_cursor()).is_none());
    assert!(lex_numeric("1e5e2", make_cursor()).is_none());
}

#[test]
fn numeric_stops_at_other_character() {
    let (token, cur) = lex_numeric("1e+x", make_cursor()).unwrap();
    assert_eq!(token.value, "1e+");
    assert_eq!(cur.pointer, 3);
    let (token, _) = lex_numeric(".5)", make_cursor()).unwrap();
    assert_eq!(token.value, ".5");
    let (token, _) = lex_numeric("12abc", make_cursor()).unwrap();
    assert_eq!(token.value, "12");
    assert!(lex_numeric("abc", make_cursor()).is_none());
    assert!(lex_numeric("", make_cursor()).is_none());
}

#[test]
fn numeric_from_inner_cursor() {
    let source = "x = 42;";
    let start = Cursor { pointer: 4, loc: Location { line: 1, col: 5 } };
    let (token, cur) = lex_numeric(source, start).unwrap();
    assert_eq!(token.value, "42");
    assert_eq!(token.loc, Location { line: 1, col: 5 });
    assert_eq!(cur.pointer, 6);
    assert_eq!(cur.loc, Location { line: 1, col: 7 });
}

#[test]
fn string_with_doubled_quote() {
    let source = "'O''Brien'";
    let (token, cur) = lex_string(source, make_cursor()).unwrap().unwrap();
    assert_eq!(token.value, "O'Brien");
    assert_eq!(token.kind, TokenKind::StringLiteral);
    assert_eq!(cur.pointer, source.len());
    assert_eq!(cur.loc, Location { line: 1, col: 11 });
}

#[test]
fn string_unterminated_is_fatal() {
    let result = lex_string("'unterminated", make_cursor());
    assert_eq!(
        result,
        Err(LexError::Unterminated { loc: Location { line: 1, col: 1 } })
    );
    assert!(lex_string("'it''", make_cursor()).is_err());
}

#[test]
fn string_no_match_without_quote() {
    assert_eq!(lex_string("abc", make_cursor()), Ok(None));
    assert_eq!(lex_string("", make_cursor()), Ok(None));
}

#[test]
fn string_empty_and_other_delimiter() {
    let (token, cur) = lex_string("''", make_cursor()).unwrap().unwrap();
    assert_eq!(token.value, "");
    assert_eq!(cur.pointer, 2);
    let (token, _) = lex_character_delimited("\"a\"\"b\" rest", make_cursor(), '"').unwrap().unwrap();
    assert_eq!(token.value, "a\"b");
}

#[test]
fn string_newline_moves_line() {
    let (_, cur) = lex_string("'a\nbc' x", make_cursor()).unwrap().unwrap();
    assert_eq!(cur.pointer, 6);
    assert_eq!(cur.loc, Location { line: 2, col: 4 });
}

#[test]
fn keyword_any_case_canonical() {
    let (token, cur) = lex_keyword("SeLeCt x", make_cursor()).unwrap();
    assert_eq!(token.value, "select");
    assert_eq!(token.kind, TokenKind::Keyword);
    assert_eq!(cur.pointer, 6);
    let (token, _) = lex_keyword("INTO t", make_cursor()).unwrap();
    assert_eq!(token.value, "into");
    let (token, _) = lex_keyword("int)", make_cursor()).unwrap();
    assert_eq!(token.value, "int");
}

#[test]
fn keyword_needs_boundary() {
    assert!(lex_keyword("SELECTOR", make_cursor()).is_none());
    assert!(lex_keyword("select_1", make_cursor()).is_none());
    assert!(lex_keyword("intox", make_cursor()).is_none());
    assert!(lex_keyword("sel", make_cursor()).is_none());
}

#[test]
fn symbol_single_character() {
    for (text, value) in [(";", ";"), ("*x", "*"), (",", ","), ("(", "("), (")", ")")] {
        let (token, cur) = lex_symbol(text, make_cursor()).unwrap();
        assert_eq!(token.value, value);
        assert_eq!(token.kind, TokenKind::Symbol);
        assert_eq!(cur.pointer, 1);
    }
    assert!(lex_symbol("+", make_cursor()).is_none());
}

#[test]
fn identifier_longest_run() {
    let (token, cur) = lex_identifier("_ab1 c", make_cursor()).unwrap();
    assert_eq!(token.value, "_ab1");
    assert_eq!(token.kind, TokenKind::Identifier);
    assert_eq!(cur.pointer, 4);
    assert!(lex_identifier("1ab", make_cursor()).is_none());
}

#[test]
fn lex_select_statement() {
    let tokens = lex("SELECT * FROM t;".to_string()).unwrap();
    assert_eq!(
        pairs(&tokens),
        vec![
            ("select".to_string(), TokenKind::Keyword),
            ("*".to_string(), TokenKind::Symbol),
            ("from".to_string(), TokenKind::Keyword),
            ("t".to_string(), TokenKind::Identifier),
            (";".to_string(), TokenKind::Symbol),
        ]
    );
}

#[test]
fn lex_empty_source() {
    assert_eq!(lex(String::new()).unwrap().len(), 0);
    assert_eq!(lex(" \n\t ".to_string()).unwrap().len(), 0);
}

#[test]
fn lex_insert_statement() {
    let tokens = lex("insert into t values (1, 'a''b', 2.5e3);".to_string()).unwrap();
    let kinds: Vec<TokenKind> = tokens.iter().map(|t| t.kind).collect();
    assert_eq!(
        kinds,
        vec![
            TokenKind::Keyword,
            TokenKind::Keyword,
            TokenKind::Identifier,
            TokenKind::Keyword,
            TokenKind::Symbol,
            TokenKind::NumericLiteral,
            TokenKind::Symbol,
            TokenKind::StringLiteral,
            TokenKind::Symbol,
            TokenKind::NumericLiteral,
            TokenKind::Symbol,
            TokenKind::Symbol,
        ]
    );
    assert_eq!(tokens[7].value, "a'b");
}

#[test]
fn lex_locations_follow_lines() {
    let tokens = lex("select a,\n  b\nfrom t".to_string()).unwrap();
    let locs: Vec<(usize, usize)> = tokens.iter().map(|t| (t.loc.line, t.loc.col)).collect();
    assert_eq!(locs, vec![(1, 1), (1, 8), (1, 9), (2, 3), (3, 1), (3, 6)]);
    for w in tokens.windows(2) {
        let (a, b) = (w[0].loc, w[1].loc);
        assert!(a.line < b.line || (a.line == b.line && a.col <= b.col));
    }
}

#[test]
fn lex_round_trip_through_spaces() {
    let first = lex("CREATE TABLE t(a int,b text);".to_string()).unwrap();
    let joined: Vec<String> = first.iter().map(|t| t.value.clone()).collect();
    let second = lex(joined.join(" ")).unwrap();
    assert_eq!(first.len(), second.len());
    for (a, b) in first.iter().zip(second.iter()) {
        assert!(a.equals(b));
    }
}

#[test]
fn lex_unmatched_reports_position_and_hint() {
    let err = lex("select @".to_string()).unwrap_err();
    assert_eq!(
        err,
        LexError::Unmatched { loc: Location { line: 1, col: 8 }, after: Some("select".to_string()) }
    );
    assert_eq!(err.message(), "Unable to lex token after select at 1:8");
    let err = lex("@".to_string()).unwrap_err();
    assert_eq!(err.message(), "Unable to lex token at 1:1");
    assert_eq!(err.location(), Location { line: 1, col: 1 });
}

#[test]
fn lex_unterminated_string_aborts() {
    let err = lex("select 'abc".to_string()).unwrap_err();
    assert_eq!(err, LexError::Unterminated { loc: Location { line: 1, col: 8 } });
    assert_eq!(err.message(), "Unterminated string literal at 1:8");
}

#[test]
fn lex_second_period_is_an_error() {
    let err = lex("1.2.3".to_string()).unwrap_err();
    assert_eq!(err, LexError::Unmatched { loc: Location { line: 1, col: 1 }, after: None });
}

#[test]
fn token_equals_ignores_location() {
    let a = Token { value: "t".to_string(), kind: TokenKind::Identifier, loc: Location { line: 1, col: 1 } };
    let b = Token { value: "t".to_string(), kind: TokenKind::Identifier, loc: Location { line: 4, col: 9 } };
    let c = Token { value: "t".to_string(), kind: TokenKind::Keyword, loc: Location { line: 1, col: 1 } };
    assert!(a.equals(&b));
    assert!(!a.equals(&c));
}

#[test]
fn token_render_shows_all_parts() {
    let t = Token { value: "select".to_string(), kind: TokenKind::Keyword, loc: Location { line: 12, col: 305 } };
    assert_eq!(t.render(), "Token(value=\"select\", kind=Keyword, loc=(12, 305))");
}

#[test]
fn vocabulary_spellings() {
    assert_eq!(Keyword::Select.as_str(), "select");
    assert_eq!(Keyword::Values.as_str(), "values");
    assert_eq!(Keyword::Text.as_str(), "text");
    assert_eq!(Symbol::Asterix.as_str(), "*");
    assert_eq!(Symbol::RightParen.as_str(), ")");
    assert_eq!(TokenKind::NumericLiteral.name(), "NumericLiteral");
}

#[test]
fn string_non_ascii_body_is_text() {
    let source = "'é'";
    let (token, cur) = lex_string(source, make_cursor()).unwrap().unwrap();
    assert_eq!(token.value, "é");
    assert_eq!(cur.pointer, source.len());
    let tokens = lex("select 'héllo, ''wörld''' ;".to_string()).unwrap();
    assert_eq!(tokens[1].value, "héllo, 'wörld'");
    assert_eq!(tokens[1].kind, TokenKind::StringLiteral);
}

#[test]
fn string_non_ascii_delimiter() {
    let source = "éaééb€é rest";
    let (token, cur) = lex_character_delimited(source, make_cursor(), 'é').unwrap().unwrap();
    assert_eq!(token.value, "aéb€");
    assert_eq!(cur.pointer, "éaééb€é".len());
    // A delimiter matches only its whole encoding, never a stray byte of another character.
    assert_eq!(lex_character_delimited("é", make_cursor(), '\u{c3}'), Ok(None));
}

#[test]
fn unmatched_hint_keeps_text() {
    let err = lex("'é' @".to_string()).unwrap_err();
    assert_eq!(err.message(), "Unable to lex token after é at 1:6");
}
