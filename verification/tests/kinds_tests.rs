use statescript::grammar::{classify, resolve_escape, CharClass};
use statescript::kinds::{Attribute, StateTypes};
use statescript::scanner::TokenKind;

#[test]
fn the_four_sets() {
    assert_eq!(StateTypes::through(), StateTypes { entry: false, end: false });
    assert_eq!(StateTypes::entry_point(), StateTypes { entry: true, end: false });
    assert_eq!(StateTypes::end_point(), StateTypes { entry: false, end: true });
    assert_eq!(StateTypes::hub(), StateTypes { entry: true, end: true });
}

#[test]
fn union_adds_and_intersection_tests() {
    let through = StateTypes::through();
    let entry = StateTypes::entry_point();
    let end = StateTypes::end_point();
    let hub = StateTypes::hub();
    assert_eq!(entry.union(end), hub);
    assert_eq!(entry | end, hub);
    assert_eq!(through | entry, entry);
    assert_eq!(hub | entry, hub);
    assert_eq!(hub.intersection(entry), entry);
    assert_eq!(hub & end, end);
    assert_eq!(entry & end, through);
    assert_eq!(entry.symmetric_difference(hub), end);
    assert_eq!(hub ^ hub, through);
    assert_eq!(entry ^ end, hub);
}

#[test]
fn contains_and_with() {
    let entry = StateTypes::through().with(Attribute::EntryPoint);
    assert!(entry.contains(Attribute::EntryPoint));
    assert!(!entry.contains(Attribute::EndPoint));
    assert_eq!(entry.with(Attribute::EntryPoint), entry);
    assert_eq!(entry.with(Attribute::EndPoint), StateTypes::hub());
    assert!(!StateTypes::through().contains(Attribute::EntryPoint));
}

#[test]
fn classes_of_characters() {
    for c in [' ', '\t', '\r', '\n'] {
        assert_eq!(classify(c, false), CharClass::Blank);
        assert_eq!(classify(c, true), CharClass::Blank);
    }
    assert_eq!(classify('#', false), CharClass::Comment);
    assert_eq!(classify('#', true), CharClass::Comment);
    assert_eq!(classify('a', true), CharClass::Word);
    assert_eq!(classify('\'', true), CharClass::Word);
    assert_eq!(classify('\'', false), CharClass::Quote);
    assert_eq!(classify('"', false), CharClass::Quote);
    assert_eq!(classify('{', false), CharClass::Mark(TokenKind::OpenBlock));
    assert_eq!(classify('}', false), CharClass::Mark(TokenKind::CloseBlock));
    assert_eq!(classify('(', false), CharClass::Mark(TokenKind::OpenGroup));
    assert_eq!(classify(')', false), CharClass::Mark(TokenKind::CloseGroup));
    assert_eq!(classify('=', false), CharClass::Mark(TokenKind::Equals));
    assert_eq!(classify('*', false), CharClass::Mark(TokenKind::Star));
    assert_eq!(classify(':', false), CharClass::Mark(TokenKind::Colon));
    assert_eq!(classify('^', false), CharClass::Mark(TokenKind::Caret));
    assert_eq!(classify('@', false), CharClass::Mark(TokenKind::At));
    assert_eq!(classify('.', false), CharClass::Mark(TokenKind::Dot));
    assert_eq!(classify('|', false), CharClass::Mark(TokenKind::Pipe));
    assert_eq!(classify('%', false), CharClass::Mark(TokenKind::Percent));
    assert_eq!(classify(';', false), CharClass::Mark(TokenKind::Semicolon));
    assert_eq!(classify('(', true), CharClass::Word);
    assert_eq!(classify('$', false), CharClass::Unknown);
    assert_eq!(classify('a', false), CharClass::Unknown);
}

#[test]
fn escapes() {
    assert_eq!(resolve_escape('n'), Some('\n'));
    assert_eq!(resolve_escape('t'), Some('\t'));
    assert_eq!(resolve_escape('r'), Some('\r'));
    assert_eq!(resolve_escape('\\'), Some('\\'));
    assert_eq!(resolve_escape('"'), Some('"'));
    assert_eq!(resolve_escape('\''), Some('\''));
    assert_eq!(resolve_escape('q'), None);
    assert_eq!(resolve_escape('0'), None);
}
