use statescript::parser::ParserError;
use statescript::report::{push_decimal, push_padded, token_line};
use statescript::scanner::{Pos, Scanner, ScannerError, Token, TokenKind};

fn at(line: usize, column: usize) -> Pos {
    Pos::new("t.txt", line, column)
}

#[test]
fn position_has_three_digits_at_least() {
    assert_eq!(at(1, 5).to_string(), "t.txt:001:005 --> \t");
    assert_eq!(at(12, 345).to_string(), "t.txt:012:345 --> \t");
    assert_eq!(at(1000, 99).to_string(), "t.txt:1000:099 --> \t");
    assert_eq!(Pos::new("", 100, 10).to_string(), ":100:010 --> \t");
}

#[test]
fn decimal_digits() {
    let mut s = String::from("n=");
    push_decimal(&mut s, 0);
    assert_eq!(s, "n=0");
    push_decimal(&mut s, 9);
    push_decimal(&mut s, 10);
    push_decimal(&mut s, 12345);
    assert_eq!(s, "n=091012345");
    let mut m = String::new();
    push_decimal(&mut m, usize::MAX);
    assert_eq!(m, format!("{}", usize::MAX));
}

#[test]
fn padding_to_three_digits() {
    let mut s = String::new();
    push_padded(&mut s, 0);
    s.push(' ');
    push_padded(&mut s, 7);
    s.push(' ');
    push_padded(&mut s, 42);
    s.push(' ');
    push_padded(&mut s, 999);
    s.push(' ');
    push_padded(&mut s, 1000);
    assert_eq!(s, "000 007 042 999 1000");
    for n in [0usize, 5, 10, 99, 100, 101, 4321] {
        let mut p = String::new();
        push_padded(&mut p, n);
        assert_eq!(p, format!("{:0>3}", n));
    }
}

#[test]
fn lexical_error_lines() {
    assert_eq!(
        ScannerError::UnfinishedLiteral(at(2, 3), String::from("\"")).to_string(),
        "t.txt:002:003 --> \tUnfinished string litteral with delimiter '\"'\n"
    );
    assert_eq!(
        ScannerError::UnknownEscape(at(2, 3), String::from("q")).to_string(),
        "t.txt:002:003 --> \tUnknown escaped character '\\q'\n"
    );
    assert_eq!(
        ScannerError::UnknownToken(at(2, 3), String::from("$")).to_string(),
        "t.txt:002:003 --> \tUndefined token '$'\n"
    );
}

#[test]
fn semantic_error_lines() {
    let p = "t.txt:004:011 --> \t";
    assert_eq!(
        ParserError::DuplicateTransition(at(4, 11), String::from("B"), String::from("D"), at(1, 4))
            .to_string(),
        format!("{p}Duplicate transition: 'B => D (t.txt:001:004 --> \talready defined here)'\n")
    );
    assert_eq!(
        ParserError::UndefinedIdentifier(at(4, 11), String::from("X")).to_string(),
        format!("{p}Undefined identifier: 'X'\n")
    );
    assert_eq!(
        ParserError::Unclosed(at(4, 11), String::from("A")).to_string(),
        format!("{p}Unclosed object: 'A'\n")
    );
    assert_eq!(
        ParserError::UnattachedModifier(at(4, 11), String::from("*")).to_string(),
        format!("{p}Unattached object specifier: '*'\n")
    );
    assert_eq!(
        ParserError::DuplicateAttribute(at(4, 11), String::from(":")).to_string(),
        format!("{p}Unattached object specifier: ':'\n")
    );
    assert_eq!(
        ParserError::DuplicateWriteMode(at(4, 11), String::from("%")).to_string(),
        format!("{p}Unattached object specifier: '%'\n")
    );
    assert_eq!(
        ParserError::ExpectedIdentifier(at(4, 11), String::from("(")).to_string(),
        format!("{p}Expected identifier before: '('\n")
    );
    assert_eq!(
        ParserError::UnbalancedGroup(at(4, 11)).to_string(),
        format!("{p}Unbalanced group: ')'\n")
    );
    assert_eq!(
        ParserError::UnbalancedBlock(at(4, 11)).to_string(),
        format!("{p}Unbalanced block: '}}'\n")
    );
    assert_eq!(
        ParserError::LiteralOutsideGroup(at(4, 11), String::from("x y")).to_string(),
        format!("{p}Literal outside group: 'x y'\n")
    );
    assert_eq!(
        ParserError::ReservedTokenUnused(at(4, 11), String::from("|")).to_string(),
        format!("{p}Reserved token: '|'\n")
    );
    assert_eq!(
        ParserError::UnexpectedEndOfStatement(at(4, 11)).to_string(),
        format!("{p}Unexpected end of statement: ';'\n")
    );
    assert_eq!(
        ParserError::Lexical(ScannerError::UnknownToken(at(4, 11), String::from("$"))).to_string(),
        format!("{p}Undefined token '$'\n")
    );
}

#[test]
fn every_error_text_is_one_line() {
    let errors = vec![
        ParserError::Lexical(ScannerError::UnfinishedLiteral(at(1, 1), String::from("'"))),
        ParserError::Lexical(ScannerError::UnknownEscape(at(1, 1), String::from("q"))),
        ParserError::Lexical(ScannerError::UnknownToken(at(1, 1), String::from("$"))),
        ParserError::DuplicateTransition(at(1, 2), String::from("a"), String::from("b"), at(1, 1)),
        ParserError::UndefinedIdentifier(at(1, 1), String::from("a")),
        ParserError::Unclosed(at(1, 1), String::from("a")),
        ParserError::DuplicateAttribute(at(1, 1), String::from("*")),
        ParserError::DuplicateWriteMode(at(1, 1), String::from("^")),
        ParserError::UnattachedModifier(at(1, 1), String::from(".")),
        ParserError::ExpectedIdentifier(at(1, 1), String::from("(")),
        ParserError::UnbalancedGroup(at(1, 1)),
        ParserError::UnbalancedBlock(at(1, 1)),
        ParserError::LiteralOutsideGroup(at(1, 1), String::from("x")),
        ParserError::ReservedTokenUnused(at(1, 1), String::from("|")),
        ParserError::UnexpectedEndOfStatement(at(1, 1)),
    ];
    for e in errors.iter() {
        let text = e.to_string();
        assert!(text.starts_with("t.txt:001:00"));
        assert!(text.ends_with('\n'));
        assert_eq!(text.matches('\n').count(), 1);
    }
}

#[test]
fn positions_and_tokens_have_no_line_end() {
    assert!(!at(1, 1).to_string().ends_with('\n'));
    assert!(!Token::Star(at(1, 1)).to_string().ends_with('\n'));
    assert!(!Token::Identifier(at(1, 1), String::from("a")).to_string().ends_with('\n'));
}

#[test]
fn token_lines() {
    let p = "t.txt:001:002 --> \t";
    assert_eq!(
        Token::Identifier(at(1, 2), String::from("abc")).to_string(),
        format!("{p}ID[\"abc\"]")
    );
    assert_eq!(
        Token::Literal(at(1, 2), String::from("a\n\"b\"")).to_string(),
        format!("{p}LITT[\"a\\n\\\"b\\\"\"]")
    );
    assert_eq!(
        Token::Comment(at(1, 2), String::from("# c")).to_string(),
        format!("{p}COMMENT[\"# c\"]")
    );
    assert_eq!(Token::OpenGroup(at(1, 2)).to_string(), format!("{p} ("));
    assert_eq!(Token::CloseGroup(at(1, 2)).to_string(), format!("{p} )"));
    assert_eq!(Token::OpenBlock(at(1, 2)).to_string(), format!("{p} {{"));
    assert_eq!(Token::CloseBlock(at(1, 2)).to_string(), format!("{p} }}"));
    assert_eq!(Token::Equals(at(1, 2)).to_string(), format!("{p} ="));
    assert_eq!(Token::Star(at(1, 2)).to_string(), format!("{p} *"));
    assert_eq!(Token::Colon(at(1, 2)).to_string(), format!("{p} :"));
    assert_eq!(Token::Caret(at(1, 2)).to_string(), format!("{p} ^"));
    assert_eq!(Token::At(at(1, 2)).to_string(), format!("{p} @"));
    assert_eq!(Token::Dot(at(1, 2)).to_string(), format!("{p} ."));
    assert_eq!(Token::Pipe(at(1, 2)).to_string(), format!("{p} |"));
    assert_eq!(Token::Percent(at(1, 2)).to_string(), format!("{p} %"));
    assert_eq!(Token::Semicolon(at(1, 2)).to_string(), format!("{p} ;"));
}

#[test]
fn token_line_takes_the_payload_as_it_is_shown() {
    assert_eq!(
        token_line(TokenKind::Identifier, &at(3, 4), "<shown>"),
        "t.txt:003:004 --> \tID[<shown>]"
    );
    assert_eq!(token_line(TokenKind::Star, &at(3, 4), "<shown>"), "t.txt:003:004 --> \t *");
}

#[test]
fn errors_of_a_text_as_lines() {
    let table = statescript::parser::Symbols::parser(
        Scanner::new("A{ B = C; B = D; }\n$", "m.txt"),
        true,
    );
    let lines: Vec<String> = table.errors.iter().map(|e| e.to_string()).collect();
    assert_eq!(
        lines,
        vec![
            "m.txt:001:011 --> \tDuplicate transition: 'B => D (m.txt:001:004 --> \talready defined here)'\n",
            "m.txt:002:001 --> \tUndefined token '$'\n",
            "m.txt:001:001 --> \tUnclosed object: 'A'\n",
        ]
    );
}
