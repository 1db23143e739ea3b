use statescript::scanner::{Pos, Scanner, ScannerError, Token, TokenKind};

fn at(line: usize, column: usize) -> Pos {
    Pos::new("t.txt", line, column)
}

fn lex(text: &str) -> Vec<Result<Token, ScannerError>> {
    Scanner::new(text, "t.txt").tokens()
}

#[test]
fn escape_in_literal_is_decoded() {
    let items = lex("\"a\\nb\"");
    assert_eq!(items, vec![Ok(Token::Literal(at(1, 1), String::from("a\nb")))]);
    match &items[0] {
        Ok(t) => assert_eq!(t.text().chars().count(), 3),
        Err(_) => panic!("a literal was expected"),
    }
}

#[test]
fn literal_takes_one_column_per_character() {
    let items = lex("\"a\\nb\" x");
    assert_eq!(
        items,
        vec![
            Ok(Token::Literal(at(1, 1), String::from("a\nb"))),
            Ok(Token::Identifier(at(1, 8), String::from("x"))),
        ]
    );
}

#[test]
fn all_escapes_are_decoded() {
    let items = lex("'\\n\\t\\r\\\\\\\"\\''");
    assert_eq!(items, vec![Ok(Token::Literal(at(1, 1), String::from("\n\t\r\\\"'")))]);
}

#[test]
fn other_quote_stays_in_literal() {
    let items = lex("'a\"b' \"c'd\"");
    assert_eq!(
        items,
        vec![
            Ok(Token::Literal(at(1, 1), String::from("a\"b"))),
            Ok(Token::Literal(at(1, 7), String::from("c'd"))),
        ]
    );
}

#[test]
fn unknown_character_is_one_error_of_one_column() {
    let items = lex("a $ b");
    assert_eq!(
        items,
        vec![
            Ok(Token::Identifier(at(1, 1), String::from("a"))),
            Err(ScannerError::UnknownToken(at(1, 3), String::from("$"))),
            Ok(Token::Identifier(at(1, 5), String::from("b"))),
        ]
    );
}

#[test]
fn unknown_character_between_tokens_shifts_by_one() {
    let with = lex("($)");
    let without = lex("()");
    assert_eq!(
        with,
        vec![
            Ok(Token::OpenGroup(at(1, 1))),
            Err(ScannerError::UnknownToken(at(1, 2), String::from("$"))),
            Ok(Token::CloseGroup(at(1, 3))),
        ]
    );
    assert_eq!(without, vec![Ok(Token::OpenGroup(at(1, 1))), Ok(Token::CloseGroup(at(1, 2)))]);
}

#[test]
fn identifier_ends_before_the_next_sign() {
    let items = lex("A(");
    assert_eq!(
        items,
        vec![Ok(Token::Identifier(at(1, 1), String::from("A"))), Ok(Token::OpenGroup(at(1, 2)))]
    );
}

#[test]
fn identifier_is_a_greedy_alphanumeric_run() {
    let items = lex("ab12 \u{e9}t\u{e9}");
    assert_eq!(
        items,
        vec![
            Ok(Token::Identifier(at(1, 1), String::from("ab12"))),
            Ok(Token::Identifier(at(1, 6), String::from("\u{e9}t\u{e9}"))),
        ]
    );
}

#[test]
fn comment_runs_to_the_end_of_the_line() {
    let items = lex("# hi there\nA");
    assert_eq!(
        items,
        vec![
            Ok(Token::Comment(at(1, 1), String::from("# hi there"))),
            Ok(Token::Identifier(at(2, 1), String::from("A"))),
        ]
    );
}

#[test]
fn comment_at_the_end_of_the_text() {
    let items = lex("A #x");
    assert_eq!(
        items,
        vec![
            Ok(Token::Identifier(at(1, 1), String::from("A"))),
            Ok(Token::Comment(at(1, 3), String::from("#x"))),
        ]
    );
}

#[test]
fn newline_resets_the_column() {
    let items = lex("a\n  b\r\n\tc");
    assert_eq!(
        items,
        vec![
            Ok(Token::Identifier(at(1, 1), String::from("a"))),
            Ok(Token::Identifier(at(2, 3), String::from("b"))),
            Ok(Token::Identifier(at(3, 2), String::from("c"))),
        ]
    );
}

#[test]
fn newline_in_literal_counts_as_a_line() {
    let items = lex("'a\nb' c");
    assert_eq!(
        items,
        vec![
            Ok(Token::Literal(at(1, 1), String::from("a\nb"))),
            Ok(Token::Identifier(at(2, 4), String::from("c"))),
        ]
    );
}

#[test]
fn every_sign_is_its_own_token() {
    let items = lex("{}()=*:^@.|%;");
    assert_eq!(
        items,
        vec![
            Ok(Token::OpenBlock(at(1, 1))),
            Ok(Token::CloseBlock(at(1, 2))),
            Ok(Token::OpenGroup(at(1, 3))),
            Ok(Token::CloseGroup(at(1, 4))),
            Ok(Token::Equals(at(1, 5))),
            Ok(Token::Star(at(1, 6))),
            Ok(Token::Colon(at(1, 7))),
            Ok(Token::Caret(at(1, 8))),
            Ok(Token::At(at(1, 9))),
            Ok(Token::Dot(at(1, 10))),
            Ok(Token::Pipe(at(1, 11))),
            Ok(Token::Percent(at(1, 12))),
            Ok(Token::Semicolon(at(1, 13))),
        ]
    );
}

#[test]
fn unfinished_literal_names_its_delimiter() {
    let items = lex("x 'abc");
    assert_eq!(
        items,
        vec![
            Ok(Token::Identifier(at(1, 1), String::from("x"))),
            Err(ScannerError::UnfinishedLiteral(at(1, 3), String::from("'"))),
        ]
    );
}

#[test]
fn backslash_at_the_end_is_an_unfinished_literal() {
    let items = lex("\"ab\\");
    assert_eq!(items, vec![Err(ScannerError::UnfinishedLiteral(at(1, 1), String::from("\"")))]);
}

#[test]
fn unknown_escape_names_the_character_and_scanning_goes_on() {
    let items = lex("\"a\\qb\"");
    assert_eq!(
        items,
        vec![
            Err(ScannerError::UnknownEscape(at(1, 1), String::from("q"))),
            Ok(Token::Identifier(at(1, 5), String::from("b"))),
            Err(ScannerError::UnfinishedLiteral(at(1, 6), String::from("\""))),
        ]
    );
}

#[test]
fn empty_and_blank_texts_hold_nothing() {
    assert_eq!(lex(""), vec![]);
    assert_eq!(lex(" \t\r\n  "), vec![]);
}

#[test]
fn next_returns_none_for_good_at_the_end() {
    let mut scan = Scanner::new("a ", "t.txt");
    assert_eq!(scan.next(), Some(Ok(Token::Identifier(at(1, 1), String::from("a")))));
    assert_eq!(scan.next(), None);
    assert_eq!(scan.next(), None);
    assert_eq!(scan.remaining(), 0);
    assert_eq!(*scan.position(), at(1, 3));
}

#[test]
fn new_scanner_stands_at_the_first_column_of_the_first_line() {
    let scan = Scanner::new("abc", "source.txt");
    assert_eq!(scan.position().file(), "source.txt");
    assert_eq!(scan.position().line(), 1);
    assert_eq!(scan.position().column(), 1);
    assert_eq!(scan.remaining(), 3);
}

#[test]
fn positions_never_go_back() {
    let items = lex("A * ( 'x'\n 'y' ) ;\n# note\nB{ a = ^b; $ }\n");
    assert!(items.len() > 10);
    let mut last = (0usize, 0usize);
    for item in items.iter() {
        let p = match item {
            Ok(t) => t.pos().clone(),
            Err(ScannerError::UnfinishedLiteral(p, _)) => p.clone(),
            Err(ScannerError::UnknownEscape(p, _)) => p.clone(),
            Err(ScannerError::UnknownToken(p, _)) => p.clone(),
        };
        let here = (p.line(), p.column());
        assert!(last < here);
        assert_eq!(p.file(), "t.txt");
        last = here;
    }
}

#[test]
fn the_same_text_gives_the_same_elements() {
    let text = "A(  \"x\" \"y\" ) ; B { a = b ; } $ 'open";
    assert_eq!(lex(text), lex(text));
}

#[test]
fn token_accessors_agree_with_the_variant() {
    let t = Token::new(TokenKind::Identifier, at(2, 3), String::from("abc"));
    assert_eq!(t, Token::Identifier(at(2, 3), String::from("abc")));
    assert_eq!(t.kind(), TokenKind::Identifier);
    assert_eq!(t.text(), "abc");
    assert_eq!(*t.pos(), at(2, 3));
    let s = Token::new(TokenKind::Star, at(1, 1), String::from("dropped"));
    assert_eq!(s, Token::Star(at(1, 1)));
    assert_eq!(s.text(), "");
}

#[test]
fn try_new_takes_an_ordinary_text() {
    let scan = Scanner::try_new("A ( 'x' ) ;", "t.txt");
    assert!(scan.is_some());
    assert_eq!(scan.map(|s| s.tokens()), Some(lex("A ( 'x' ) ;")));
}

#[test]
fn there_are_no_more_elements_than_characters() {
    for text in ["", "a", "a b", "(((", "$$", "'a' 'b'", "# c\n#d", "a\\b"] {
        assert!(lex(text).len() <= text.chars().count());
    }
}
