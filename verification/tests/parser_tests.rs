use statescript::kinds::{Attribute, StateTypes, WritingBehaviour};
use statescript::parser::{ParserError, Symbols};
use statescript::scanner::{Pos, Scanner, ScannerError};

fn at(line: usize, column: usize) -> Pos {
    Pos::new("t.txt", line, column)
}

fn parse(text: &str) -> Symbols {
    Symbols::parser(Scanner::new(text, "t.txt"), true)
}

#[test]
fn group_with_two_values() {
    let table = parse("A(  \"x\" \"y\" );");
    assert_eq!(table.objects.len(), 1);
    let a = &table.objects[0];
    assert_eq!(a.id, "A");
    assert_eq!(a.loc, at(1, 1));
    assert_eq!(a.values, vec![0, 1]);
    assert_eq!(a.t, StateTypes::through());
    assert!(a.transitions.is_empty());
    assert_eq!(
        table.values,
        vec![(String::from("x"), at(1, 5)), (String::from("y"), at(1, 9))]
    );
    assert_eq!(table.errors, vec![]);
}

#[test]
fn group_without_a_terminator_leaves_its_name_unclosed() {
    let table = parse("A(  \"x\" \"y\" )");
    assert_eq!(table.objects.len(), 1);
    assert_eq!(table.objects[0].id, "A");
    assert_eq!(table.objects[0].values, vec![0, 1]);
    assert_eq!(table.objects[0].t, StateTypes::through());
    assert_eq!(table.values[0].0, "x");
    assert_eq!(table.values[1].0, "y");
    assert_eq!(table.errors, vec![ParserError::Unclosed(at(1, 1), String::from("A"))]);
}

#[test]
fn second_transition_from_one_origin_is_kept_and_reported() {
    let table = parse("A{ B = C; B = D; }");
    assert_eq!(table.objects.len(), 1);
    let a = &table.objects[0];
    assert_eq!(a.transitions.len(), 2);
    assert_eq!(a.transitions[0].origin, "B");
    assert_eq!(a.transitions[0].target, "C");
    assert_eq!(a.transitions[0].pos, at(1, 4));
    assert_eq!(a.transitions[0].mode, WritingBehaviour::WriteAfter);
    assert_eq!(a.transitions[1].origin, "B");
    assert_eq!(a.transitions[1].target, "D");
    assert_eq!(a.transitions[1].pos, at(1, 11));
    let duplicates: Vec<&ParserError> = table
        .errors
        .iter()
        .filter(|e| matches!(e, ParserError::DuplicateTransition(_, _, _, _)))
        .collect();
    assert_eq!(
        duplicates,
        vec![&ParserError::DuplicateTransition(
            at(1, 11),
            String::from("B"),
            String::from("D"),
            at(1, 4)
        )]
    );
    assert_eq!(
        table.errors,
        vec![
            ParserError::DuplicateTransition(
                at(1, 11),
                String::from("B"),
                String::from("D"),
                at(1, 4)
            ),
            ParserError::Unclosed(at(1, 1), String::from("A")),
        ]
    );
}

#[test]
fn third_transition_from_one_origin_is_reported_for_each_earlier_one() {
    let table = parse("A{ B = C; B = D; B = E; };");
    assert_eq!(table.objects[0].transitions.len(), 3);
    assert_eq!(
        table.errors,
        vec![
            ParserError::DuplicateTransition(
                at(1, 11),
                String::from("B"),
                String::from("D"),
                at(1, 4)
            ),
            ParserError::DuplicateTransition(
                at(1, 18),
                String::from("B"),
                String::from("E"),
                at(1, 4)
            ),
            ParserError::DuplicateTransition(
                at(1, 18),
                String::from("B"),
                String::from("E"),
                at(1, 11)
            ),
        ]
    );
}

#[test]
fn missing_semicolon_leaves_names_unclosed() {
    let table = parse("A{ X = Y }");
    assert_eq!(table.objects.len(), 1);
    assert_eq!(table.objects[0].id, "A");
    assert!(table.objects[0].transitions.is_empty());
    assert_eq!(
        table.errors,
        vec![
            ParserError::UnbalancedBlock(at(1, 10)),
            ParserError::Unclosed(at(1, 8), String::from("Y")),
            ParserError::Unclosed(at(1, 4), String::from("X")),
            ParserError::Unclosed(at(1, 1), String::from("A")),
        ]
    );
}

#[test]
fn truncated_text_keeps_what_was_parsed() {
    let table = parse("A{ P = Q; X = Y }");
    assert_eq!(table.objects[0].transitions.len(), 1);
    assert_eq!(table.objects[0].transitions[0].origin, "P");
    assert_eq!(table.objects[0].transitions[0].target, "Q");
    assert_eq!(
        table.errors[1],
        ParserError::Unclosed(at(1, 15), String::from("Y"))
    );
}

#[test]
fn star_on_two_objects_is_legal() {
    let table = parse("A * ( \"v\" ) ; B * ( \"v\" ) ;");
    assert_eq!(table.errors, vec![]);
    assert_eq!(table.objects.len(), 2);
    assert_eq!(table.objects[0].id, "A");
    assert!(table.objects[0].t.contains(Attribute::EntryPoint));
    assert!(!table.objects[0].t.contains(Attribute::EndPoint));
    assert_eq!(table.objects[1].id, "B");
    assert_eq!(table.objects[1].t, StateTypes::through().with(Attribute::EntryPoint));
    assert_eq!(table.objects[0].values, vec![0]);
    assert_eq!(table.objects[1].values, vec![1]);
}

#[test]
fn two_stars_on_one_object_are_one_error() {
    let table = parse("A * * ( \"v\" ) ;");
    assert_eq!(
        table.errors,
        vec![ParserError::DuplicateAttribute(at(1, 5), String::from("*"))]
    );
    assert_eq!(table.objects[0].t, StateTypes::through().with(Attribute::EntryPoint));
}

#[test]
fn star_before_any_name_is_unattached() {
    let table = parse("* A ( \"v\" ) ;");
    assert_eq!(
        table.errors,
        vec![ParserError::UnattachedModifier(at(1, 1), String::from("*"))]
    );
    assert_eq!(table.objects[0].t, StateTypes::through());
    let twice = parse("* * A ( \"v\" ) ;");
    assert_eq!(
        twice.errors,
        vec![
            ParserError::UnattachedModifier(at(1, 1), String::from("*")),
            ParserError::UnattachedModifier(at(1, 3), String::from("*")),
        ]
    );
}

#[test]
fn star_and_colon_make_a_hub() {
    let table = parse("A * : { } ;");
    assert_eq!(table.errors, vec![]);
    assert_eq!(table.objects[0].t, StateTypes::hub());
    let again = parse("A : : { } ;");
    assert_eq!(
        again.errors,
        vec![ParserError::DuplicateAttribute(at(1, 5), String::from(":"))]
    );
    assert_eq!(again.objects[0].t, StateTypes::end_point());
}

#[test]
fn roles_start_anew_after_a_declaration() {
    let table = parse("A * ( ) ; B ( ) ;");
    assert_eq!(table.errors, vec![]);
    assert_eq!(table.objects[0].t, StateTypes::entry_point());
    assert_eq!(table.objects[1].t, StateTypes::through());
}

#[test]
fn second_declaration_keeps_the_first() {
    let table = parse("A * ( 'x' ) ; A : ( 'y' ) ; A { a = b ; } ;");
    assert_eq!(table.errors, vec![]);
    assert_eq!(table.objects.len(), 1);
    assert_eq!(table.objects[0].loc, at(1, 1));
    assert_eq!(table.objects[0].t, StateTypes::entry_point());
    assert_eq!(table.objects[0].values, vec![0, 1]);
    assert_eq!(table.objects[0].transitions.len(), 1);
}

#[test]
fn write_modes() {
    let table = parse("A { a = ^ b ; c = % d ; e = f ; g = . ; @ = h ; } ;");
    assert_eq!(table.errors, vec![]);
    let ts = &table.objects[0].transitions;
    assert_eq!(ts.len(), 5);
    assert_eq!(ts[0].mode, WritingBehaviour::NoWrite);
    assert_eq!(ts[1].mode, WritingBehaviour::WriteBefore);
    assert_eq!(ts[2].mode, WritingBehaviour::WriteAfter);
    assert_eq!(ts[3].target, ".");
    assert_eq!(ts[3].mode, WritingBehaviour::WriteAfter);
    assert_eq!(ts[4].origin, "@");
    assert_eq!(ts[4].pos, at(1, 41));
}

#[test]
fn second_write_mode_is_an_error() {
    let table = parse("A { a = ^ % b ; } ;");
    assert_eq!(
        table.errors,
        vec![ParserError::DuplicateWriteMode(at(1, 11), String::from("%"))]
    );
    assert_eq!(table.objects[0].transitions[0].mode, WritingBehaviour::NoWrite);
}

#[test]
fn modifiers_outside_a_transition_are_unattached() {
    let table = parse("A { ^ % . } ;");
    assert_eq!(
        table.errors,
        vec![
            ParserError::UnattachedModifier(at(1, 5), String::from("^")),
            ParserError::UnattachedModifier(at(1, 7), String::from("%")),
            ParserError::UnattachedModifier(at(1, 9), String::from(".")),
        ]
    );
}

#[test]
fn structural_errors() {
    let table = parse("( ) { } 'x' | ;");
    assert_eq!(
        table.errors,
        vec![
            ParserError::ExpectedIdentifier(at(1, 1), String::from("(")),
            ParserError::UnbalancedGroup(at(1, 3)),
            ParserError::ExpectedIdentifier(at(1, 5), String::from("{")),
            ParserError::UnbalancedBlock(at(1, 7)),
            ParserError::LiteralOutsideGroup(at(1, 9), String::from("x")),
            ParserError::ReservedTokenUnused(at(1, 13), String::from("|")),
            ParserError::UnexpectedEndOfStatement(at(1, 15)),
        ]
    );
    assert!(table.objects.is_empty());
    assert!(table.values.is_empty());
}

#[test]
fn literal_without_an_object() {
    let gone = parse("A ( ; 'x' )");
    assert_eq!(
        gone.errors,
        vec![ParserError::UnattachedModifier(at(1, 7), String::from("x"))]
    );
    assert!(gone.values.is_empty());
    let other = parse("A ( B 'x' ) ; ;");
    assert_eq!(
        other.errors,
        vec![ParserError::UndefinedIdentifier(at(1, 5), String::from("B"))]
    );
    assert!(other.values.is_empty());
}

#[test]
fn transition_in_an_undeclared_object() {
    let table = parse("X A = B ;");
    assert_eq!(
        table.errors,
        vec![
            ParserError::UndefinedIdentifier(at(1, 1), String::from("X")),
            ParserError::Unclosed(at(1, 1), String::from("X")),
        ]
    );
    assert!(table.objects.is_empty());
}

#[test]
fn transition_with_too_few_names() {
    let table = parse("A = ;");
    assert_eq!(
        table.errors,
        vec![ParserError::UnexpectedEndOfStatement(at(1, 5))]
    );
}

#[test]
fn lexical_errors_are_recorded_only_when_asked() {
    let recorded = Symbols::parser(Scanner::new("A $ ( 'x' ) ;", "t.txt"), true);
    assert_eq!(
        recorded.errors,
        vec![ParserError::Lexical(ScannerError::UnknownToken(at(1, 3), String::from("$")))]
    );
    let dropped = Symbols::parser(Scanner::new("A $ ( 'x' ) ;", "t.txt"), false);
    assert_eq!(dropped.errors, vec![]);
    assert_eq!(recorded.objects, dropped.objects);
    assert_eq!(recorded.values, dropped.values);
}

#[test]
fn comments_change_nothing() {
    let with = parse("# first\nA ( 'x' ) ; # last");
    assert_eq!(with.errors, vec![]);
    assert_eq!(with.objects.len(), 1);
    assert_eq!(with.objects[0].loc, at(2, 1));
}

#[test]
fn objects_stand_in_the_order_of_their_first_declaration() {
    let table = parse("B ( ) ; A ( ) ; C { } ; A { } ; B ( 'x' ) ;");
    assert_eq!(table.errors, vec![]);
    let names: Vec<&str> = table.objects.iter().map(|o| o.id.as_str()).collect();
    assert_eq!(names, vec!["B", "A", "C"]);
    assert_eq!(table.objects[0].values, vec![0]);
}

#[test]
fn building_twice_gives_the_same_table() {
    let text = "A * ( 'x' 'y' ) ; B : { a = b ; c = ^ d ; } ;";
    let tokens = Scanner::new(text, "t.txt").tokens();
    let first = Symbols::from_tokens(tokens.clone(), true);
    let second = Symbols::from_tokens(tokens, true);
    assert_eq!(first, second);
    assert_eq!(first.errors, vec![]);
    assert_eq!(first, parse(text));
}

#[test]
fn the_flag_decides_of_the_lexical_errors_alone() {
    let text = "A $ { B = C ; 'x' B = \"q\\z D ; } ; |";
    let loud = Symbols::parser(Scanner::new(text, "t.txt"), true);
    let quiet = Symbols::parser(Scanner::new(text, "t.txt"), false);
    assert_eq!(loud.objects, quiet.objects);
    assert_eq!(loud.values, quiet.values);
    let semantic: Vec<ParserError> = loud
        .errors
        .iter()
        .filter(|e| !matches!(e, ParserError::Lexical(_)))
        .cloned()
        .collect();
    assert_eq!(quiet.errors, semantic);
    assert!(loud.errors.len() > quiet.errors.len());
    assert!(!quiet.errors.is_empty());
}
