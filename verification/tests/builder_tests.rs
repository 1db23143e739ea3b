use statescript::builder::{sign_of, Builder};
use statescript::kinds::Context;
use statescript::parser::{ParserError, Symbols};
use statescript::scanner::{Pos, Scanner, ScannerError, Token, TokenKind};
use statescript::text::{chars_of, single};

fn at(column: usize) -> Pos {
    Pos::new("b.txt", 1, column)
}

fn id(column: usize, name: &str) -> Result<Token, ScannerError> {
    Ok(Token::Identifier(at(column), String::from(name)))
}

#[test]
fn a_new_builder_is_empty() {
    let b = Builder::new(true);
    assert_eq!(b.current(), Context::Top);
    assert_eq!(b.depth(), 0);
    assert_eq!(b.waiting(), 0);
    let table = b.finish();
    assert!(table.objects.is_empty());
    assert!(table.values.is_empty());
    assert!(table.errors.is_empty());
}

#[test]
fn the_two_stacks_follow_the_tokens() {
    let mut b = Builder::new(true);
    b.feed(id(1, "A"));
    assert_eq!((b.waiting(), b.depth(), b.current()), (1, 0, Context::Top));
    b.feed(Ok(Token::OpenBlock(at(2))));
    assert_eq!((b.waiting(), b.depth(), b.current()), (1, 1, Context::BlockBody));
    b.feed(id(3, "x"));
    b.feed(Ok(Token::Equals(at(4))));
    assert_eq!((b.waiting(), b.depth(), b.current()), (2, 2, Context::TransitionBody));
    b.feed(Ok(Token::Dot(at(5))));
    assert_eq!(b.waiting(), 3);
    b.feed(Ok(Token::Semicolon(at(6))));
    assert_eq!((b.waiting(), b.depth(), b.current()), (1, 1, Context::BlockBody));
    b.feed(Ok(Token::CloseBlock(at(7))));
    assert_eq!((b.waiting(), b.depth(), b.current()), (1, 0, Context::Top));
    b.feed(Ok(Token::Semicolon(at(8))));
    assert_eq!((b.waiting(), b.depth(), b.current()), (0, 0, Context::Top));
    let table = b.finish();
    assert_eq!(table.errors, vec![]);
    assert_eq!(table.objects[0].transitions[0].origin, "x");
    assert_eq!(table.objects[0].transitions[0].target, ".");
    assert_eq!(table.objects[0].transitions[0].pos, at(3));
}

#[test]
fn a_group_statement_leaves_the_stacks_as_they_were() {
    let mut b = Builder::new(true);
    b.feed(id(1, "Outer"));
    b.feed(Ok(Token::OpenBlock(at(2))));
    let (waiting, depth) = (b.waiting(), b.depth());
    b.feed(id(3, "A"));
    b.feed(Ok(Token::OpenGroup(at(4))));
    b.feed(Ok(Token::Literal(at(5), String::from("x"))));
    b.feed(Ok(Token::Literal(at(6), String::from("y"))));
    b.feed(Ok(Token::CloseGroup(at(7))));
    b.feed(Ok(Token::Semicolon(at(8))));
    assert_eq!((b.waiting(), b.depth()), (waiting, depth));
    let table = b.finish();
    assert_eq!(table.objects.len(), 2);
    assert_eq!(table.objects[1].id, "A");
    assert_eq!(table.objects[1].values, vec![0, 1]);
    assert_eq!(table.errors, vec![ParserError::Unclosed(at(1), String::from("Outer"))]);
}

#[test]
fn names_left_at_the_end_are_reported_latest_first() {
    let mut b = Builder::new(false);
    b.feed(id(1, "a"));
    b.feed(id(2, "b"));
    b.feed(Ok(Token::At(at(3))));
    let table = b.finish();
    assert_eq!(
        table.errors,
        vec![
            ParserError::Unclosed(at(3), String::from("@")),
            ParserError::Unclosed(at(2), String::from("b")),
            ParserError::Unclosed(at(1), String::from("a")),
        ]
    );
}

#[test]
fn a_failed_transition_stays_open() {
    let mut b = Builder::new(true);
    b.feed(id(1, "X"));
    b.feed(id(2, "a"));
    b.feed(Ok(Token::Equals(at(3))));
    b.feed(Ok(Token::Percent(at(4))));
    b.feed(id(5, "b"));
    b.feed(Ok(Token::Semicolon(at(6))));
    assert_eq!((b.waiting(), b.depth(), b.current()), (1, 1, Context::TransitionBody));
    b.feed(Ok(Token::Caret(at(7))));
    let table = b.finish();
    assert_eq!(
        table.errors,
        vec![
            ParserError::UndefinedIdentifier(at(1), String::from("X")),
            ParserError::DuplicateWriteMode(at(7), String::from("^")),
            ParserError::Unclosed(at(1), String::from("X")),
        ]
    );
}

#[test]
fn too_few_names_at_the_end_of_a_transition() {
    let mut b = Builder::new(true);
    b.feed(id(1, "a"));
    b.feed(Ok(Token::Equals(at(2))));
    b.feed(id(3, "b"));
    b.feed(Ok(Token::Semicolon(at(4))));
    assert_eq!((b.waiting(), b.depth()), (0, 1));
    let table = b.finish();
    assert_eq!(table.errors, vec![ParserError::UnexpectedEndOfStatement(at(4))]);
}

#[test]
fn lexical_errors_pass_through_a_verbose_builder_only() {
    let e = ScannerError::UnknownEscape(at(1), String::from("q"));
    let mut loud = Builder::new(true);
    loud.feed(Err(e.clone()));
    assert_eq!(loud.finish().errors, vec![ParserError::Lexical(e.clone())]);
    let mut quiet = Builder::new(false);
    quiet.feed(Err(e));
    assert_eq!(quiet.finish().errors, vec![]);
}

#[test]
fn lookup_by_name() {
    let table = Symbols::parser(Scanner::new("B ( 'x' ) ; A { } ;", "b.txt"), true);
    assert_eq!(table.index_of(&String::from("B")), Some(0));
    assert_eq!(table.index_of(&String::from("A")), Some(1));
    assert_eq!(table.index_of(&String::from("C")), None);
    assert_eq!(table.get(&String::from("A")).map(|o| o.loc.clone()), Some(at(13)));
    assert!(table.get(&String::from("b")).is_none());
}

#[test]
fn signs_of_the_kinds() {
    assert_eq!(sign_of(TokenKind::OpenGroup), "(");
    assert_eq!(sign_of(TokenKind::CloseGroup), ")");
    assert_eq!(sign_of(TokenKind::OpenBlock), "{");
    assert_eq!(sign_of(TokenKind::CloseBlock), "}");
    assert_eq!(sign_of(TokenKind::Equals), "=");
    assert_eq!(sign_of(TokenKind::Star), "*");
    assert_eq!(sign_of(TokenKind::Colon), ":");
    assert_eq!(sign_of(TokenKind::Caret), "^");
    assert_eq!(sign_of(TokenKind::At), "@");
    assert_eq!(sign_of(TokenKind::Dot), ".");
    assert_eq!(sign_of(TokenKind::Pipe), "|");
    assert_eq!(sign_of(TokenKind::Percent), "%");
    assert_eq!(sign_of(TokenKind::Semicolon), ";");
    assert_eq!(sign_of(TokenKind::Identifier), "");
}

#[test]
fn characters_of_a_text() {
    assert_eq!(chars_of("a\u{e9}b"), vec!['a', '\u{e9}', 'b']);
    assert_eq!(chars_of(""), Vec::<char>::new());
    assert_eq!(single('x'), "x");
}
