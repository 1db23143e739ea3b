//! The text of positions, tokens and errors, one line each.

use vstd::prelude::*;
use vstd::string::StringExecFns;
use crate::parser::{ParserError, ParserErrorView};
use crate::scanner::{Pos, PosView, ScannerError, ScannerErrorView, Token, TokenKind, TokenView};
use crate::text::{debug_string, debug_text};

verus! {

/// The decimal digit of a number below ten.
pub open spec fn digit(d: nat) -> char {
    if d == 0 {
        '0'
    } else if d == 1 {
        '1'
    } else if d == 2 {
        '2'
    } else if d == 3 {
        '3'
    } else if d == 4 {
        '4'
    } else if d == 5 {
        '5'
    } else if d == 6 {
        '6'
    } else if d == 7 {
        '7'
    } else if d == 8 {
        '8'
    } else {
        '9'
    }
}

/// The decimal digits of `n`, the most significant first.
pub open spec fn decimal(n: nat) -> Seq<char>
    decreases n,
{
    if n < 10 {
        seq![digit(n)]
    } else {
        decimal(n / 10).push(digit(n % 10))
    }
}

/// The decimal digits of `n`, with zeros before them up to `width` digits.
pub open spec fn padded(n: nat, width: nat) -> Seq<char> {
    let d = decimal(n);
    if d.len() >= width {
        d
    } else {
        Seq::new((width - d.len()) as nat, |i: int| '0') + d
    }
}

/// The text of a position: the source, the line and the column, each of the
/// two with at least three digits, and an arrow.
pub open spec fn pos_text(p: PosView) -> Seq<char> {
    p.file + seq![':'] + padded(p.line, 3) + seq![':'] + padded(p.column, 3) + seq![
        ' ',
        '-',
        '-',
        '>',
        ' ',
        '\t',
    ]
}

/// The line that reports a lexical error, without its end: the position,
/// then the message of the kind with the character between single quotes.
pub open spec fn scanner_error_message(e: ScannerErrorView) -> Seq<char> {
    match e {
        ScannerErrorView::UnfinishedLiteral(p, d) => pos_text(p)
            + "Unfinished string litteral with delimiter '"@ + d + "'"@,
        ScannerErrorView::UnknownEscape(p, c) => pos_text(p) + "Unknown escaped character '\\"@
            + c + "'"@,
        ScannerErrorView::UnknownToken(p, c) => pos_text(p) + "Undefined token '"@ + c + "'"@,
    }
}

/// The text of a lexical error: the line that reports it, ended by a line
/// feed.
pub open spec fn scanner_error_text(e: ScannerErrorView) -> Seq<char> {
    scanner_error_message(e).push('\n')
}

/// The line that reports a semantic error, without its end: the position,
/// then the message of the kind with what it names between single quotes.
pub open spec fn parser_error_message(e: ParserErrorView) -> Seq<char> {
    match e {
        ParserErrorView::Lexical(e) => scanner_error_message(e),
        ParserErrorView::DuplicateTransition(p, origin, target, q) => pos_text(p)
            + "Duplicate transition: '"@ + origin + " => "@ + target + " ("@ + pos_text(q)
            + "already defined here)'"@,
        ParserErrorView::UndefinedIdentifier(p, s) => pos_text(p) + "Undefined identifier: '"@ + s
            + "'"@,
        ParserErrorView::Unclosed(p, s) => pos_text(p) + "Unclosed object: '"@ + s + "'"@,
        ParserErrorView::DuplicateAttribute(p, s) => pos_text(p)
            + "Unattached object specifier: '"@ + s + "'"@,
        ParserErrorView::DuplicateWriteMode(p, s) => pos_text(p)
            + "Unattached object specifier: '"@ + s + "'"@,
        ParserErrorView::UnattachedModifier(p, s) => pos_text(p)
            + "Unattached object specifier: '"@ + s + "'"@,
        ParserErrorView::ExpectedIdentifier(p, s) => pos_text(p) + "Expected identifier before: '"@
            + s + "'"@,
        ParserErrorView::UnbalancedGroup(p) => pos_text(p) + "Unbalanced group: ')'"@,
        ParserErrorView::UnbalancedBlock(p) => pos_text(p) + "Unbalanced block: '}'"@,
        ParserErrorView::LiteralOutsideGroup(p, s) => pos_text(p) + "Literal outside group: '"@ + s
            + "'"@,
        ParserErrorView::ReservedTokenUnused(p, s) => pos_text(p) + "Reserved token: '"@ + s
            + "'"@,
        ParserErrorView::UnexpectedEndOfStatement(p) => pos_text(p)
            + "Unexpected end of statement: ';'"@,
    }
}

/// The text of a semantic error: the line that reports it, ended by a line
/// feed.
pub open spec fn parser_error_text(e: ParserErrorView) -> Seq<char> {
    parser_error_message(e).push('\n')
}

/// What stands behind the position in the text of a token of kind `kind`,
/// where `shown` is the payload as it is shown.
pub open spec fn token_tail(kind: TokenKind, shown: Seq<char>) -> Seq<char> {
    match kind {
        TokenKind::Comment => "COMMENT["@ + shown + "]"@,
        TokenKind::OpenGroup => " ("@,
        TokenKind::CloseGroup => " )"@,
        TokenKind::OpenBlock => " {"@,
        TokenKind::CloseBlock => " }"@,
        TokenKind::Identifier => "ID["@ + shown + "]"@,
        TokenKind::Literal => "LITT["@ + shown + "]"@,
        TokenKind::Equals => " ="@,
        TokenKind::Star => " *"@,
        TokenKind::Colon => " :"@,
        TokenKind::Caret => " ^"@,
        TokenKind::At => " @"@,
        TokenKind::Dot => " ."@,
        TokenKind::Pipe => " |"@,
        TokenKind::Percent => " %"@,
        TokenKind::Semicolon => " ;"@,
    }
}

/// The text of a token: its position, then its sign, or its kind and its
/// payload in the quoted form in which strings are shown for inspection.
pub open spec fn token_text(t: TokenView) -> Seq<char> {
    pos_text(t.pos) + token_tail(t.kind, debug_text(t.text))
}

/// A number below ten has one digit, one below a hundred two, any other at
/// least three.
pub proof fn lemma_decimal_len(n: nat)
    ensures
        n < 10 ==> decimal(n).len() == 1,
        10 <= n < 100 ==> decimal(n).len() == 2,
        100 <= n ==> decimal(n).len() >= 3,
    decreases n,
{
    reveal_with_fuel(decimal, 3);
    if n >= 100 {
        lemma_decimal_len(n / 10);
    }
}

/// Where a lexical error stands.
pub open spec fn scanner_error_pos(e: ScannerErrorView) -> PosView {
    match e {
        ScannerErrorView::UnfinishedLiteral(p, _) => p,
        ScannerErrorView::UnknownEscape(p, _) => p,
        ScannerErrorView::UnknownToken(p, _) => p,
    }
}

/// Where a semantic error stands.
pub open spec fn parser_error_pos(e: ParserErrorView) -> PosView {
    match e {
        ParserErrorView::Lexical(e) => scanner_error_pos(e),
        ParserErrorView::DuplicateTransition(p, _, _, _) => p,
        ParserErrorView::UndefinedIdentifier(p, _) => p,
        ParserErrorView::Unclosed(p, _) => p,
        ParserErrorView::DuplicateAttribute(p, _) => p,
        ParserErrorView::DuplicateWriteMode(p, _) => p,
        ParserErrorView::UnattachedModifier(p, _) => p,
        ParserErrorView::ExpectedIdentifier(p, _) => p,
        ParserErrorView::UnbalancedGroup(p) => p,
        ParserErrorView::UnbalancedBlock(p) => p,
        ParserErrorView::LiteralOutsideGroup(p, _) => p,
        ParserErrorView::ReservedTokenUnused(p, _) => p,
        ParserErrorView::UnexpectedEndOfStatement(p) => p,
    }
}

/// Whether a text holds no line feed.
pub open spec fn unbroken(s: Seq<char>) -> bool {
    forall|i: int| 0 <= i < s.len() ==> s[i] != '\n'
}

/// Whether neither the source's name nor what a lexical error names holds a
/// line feed.
pub open spec fn scanner_error_unbroken(e: ScannerErrorView) -> bool {
    match e {
        ScannerErrorView::UnfinishedLiteral(p, s) => unbroken(p.file) && unbroken(s),
        ScannerErrorView::UnknownEscape(p, s) => unbroken(p.file) && unbroken(s),
        ScannerErrorView::UnknownToken(p, s) => unbroken(p.file) && unbroken(s),
    }
}

/// Whether neither the sources' names nor what a semantic error names holds
/// a line feed.
pub open spec fn parser_error_unbroken(e: ParserErrorView) -> bool {
    match e {
        ParserErrorView::Lexical(e) => scanner_error_unbroken(e),
        ParserErrorView::DuplicateTransition(p, origin, target, q) => unbroken(p.file) && unbroken(
            origin,
        ) && unbroken(target) && unbroken(q.file),
        ParserErrorView::UndefinedIdentifier(p, s) => unbroken(p.file) && unbroken(s),
        ParserErrorView::Unclosed(p, s) => unbroken(p.file) && unbroken(s),
        ParserErrorView::DuplicateAttribute(p, s) => unbroken(p.file) && unbroken(s),
        ParserErrorView::DuplicateWriteMode(p, s) => unbroken(p.file) && unbroken(s),
        ParserErrorView::UnattachedModifier(p, s) => unbroken(p.file) && unbroken(s),
        ParserErrorView::ExpectedIdentifier(p, s) => unbroken(p.file) && unbroken(s),
        ParserErrorView::UnbalancedGroup(p) => unbroken(p.file),
        ParserErrorView::UnbalancedBlock(p) => unbroken(p.file),
        ParserErrorView::LiteralOutsideGroup(p, s) => unbroken(p.file) && unbroken(s),
        ParserErrorView::ReservedTokenUnused(p, s) => unbroken(p.file) && unbroken(s),
        ParserErrorView::UnexpectedEndOfStatement(p) => unbroken(p.file),
    }
}

/// The decimal digits of a number hold no line feed.
pub proof fn lemma_decimal_unbroken(n: nat)
    ensures
        unbroken(decimal(n)),
    decreases n,
{
    if n >= 10 {
        lemma_decimal_unbroken(n / 10);
    }
}

/// The text of a position holds no line feed where the source's name holds
/// none.
pub proof fn lemma_pos_text_unbroken(p: PosView)
    requires
        unbroken(p.file),
    ensures
        unbroken(pos_text(p)),
{
    lemma_decimal_unbroken(p.line);
    lemma_decimal_unbroken(p.column);
}

/// Two texts without a line feed make one without a line feed.
pub proof fn lemma_unbroken_concat(a: Seq<char>, b: Seq<char>)
    requires
        unbroken(a),
        unbroken(b),
    ensures
        unbroken(a + b),
{
}

/// A position's text, then three texts: no line feed where none of the
/// parts holds one.
proof fn lemma_framed_unbroken(p: PosView, head: Seq<char>, text: Seq<char>, tail: Seq<char>)
    requires
        unbroken(p.file),
        unbroken(head),
        unbroken(text),
        unbroken(tail),
    ensures
        unbroken(pos_text(p) + head + text + tail),
{
    lemma_pos_text_unbroken(p);
    lemma_unbroken_concat(pos_text(p), head);
    lemma_unbroken_concat(pos_text(p) + head, text);
    lemma_unbroken_concat(pos_text(p) + head + text, tail);
}

/// None of the fixed messages of the lexical errors holds a line feed.
proof fn lemma_scanner_messages_unbroken()
    ensures
        unbroken("Unfinished string litteral with delimiter '"@),
        unbroken("Unknown escaped character '\\"@),
        unbroken("Undefined token '"@),
        unbroken("'"@),
{
    reveal_strlit("Unfinished string litteral with delimiter '");
    reveal_strlit("Unknown escaped character '\\");
    reveal_strlit("Undefined token '");
    reveal_strlit("'");
}

/// None of the fixed messages that name something holds a line feed.
proof fn lemma_naming_messages_unbroken()
    ensures
        unbroken("Undefined identifier: '"@),
        unbroken("Unclosed object: '"@),
        unbroken("Unattached object specifier: '"@),
        unbroken("Expected identifier before: '"@),
        unbroken("Literal outside group: '"@),
        unbroken("Reserved token: '"@),
{
    reveal_strlit("Undefined identifier: '");
    reveal_strlit("Unclosed object: '");
    reveal_strlit("Unattached object specifier: '");
    reveal_strlit("Expected identifier before: '");
    reveal_strlit("Literal outside group: '");
    reveal_strlit("Reserved token: '");
}

/// None of the other fixed messages holds a line feed.
proof fn lemma_plain_messages_unbroken()
    ensures
        unbroken("Duplicate transition: '"@),
        unbroken(" => "@),
        unbroken(" ("@),
        unbroken("already defined here)'"@),
        unbroken("Unbalanced group: ')'"@),
        unbroken("Unbalanced block: '}'"@),
        unbroken("Unexpected end of statement: ';'"@),
{
    reveal_strlit("Duplicate transition: '");
    reveal_strlit(" => ");
    reveal_strlit(" (");
    reveal_strlit("already defined here)'");
    reveal_strlit("Unbalanced group: ')'");
    reveal_strlit("Unbalanced block: '}'");
    reveal_strlit("Unexpected end of statement: ';'");
}

/// The message of a lexical error holds no line feed where neither the
/// source's name nor what the error names holds one.
pub proof fn lemma_scanner_error_message_unbroken(e: ScannerErrorView)
    requires
        scanner_error_unbroken(e),
    ensures
        unbroken(scanner_error_message(e)),
{
    lemma_scanner_messages_unbroken();
    match e {
        ScannerErrorView::UnfinishedLiteral(p, s) => lemma_framed_unbroken(
            p,
            "Unfinished string litteral with delimiter '"@,
            s,
            "'"@,
        ),
        ScannerErrorView::UnknownEscape(p, s) => lemma_framed_unbroken(
            p,
            "Unknown escaped character '\\"@,
            s,
            "'"@,
        ),
        ScannerErrorView::UnknownToken(p, s) => lemma_framed_unbroken(
            p,
            "Undefined token '"@,
            s,
            "'"@,
        ),
    }
}

/// The message of a semantic error holds no line feed where neither the
/// sources' names nor what the error names holds one.
pub proof fn lemma_parser_error_message_unbroken(e: ParserErrorView)
    requires
        parser_error_unbroken(e),
    ensures
        unbroken(parser_error_message(e)),
{
    lemma_scanner_messages_unbroken();
    lemma_naming_messages_unbroken();
    lemma_plain_messages_unbroken();
    let quote = "'"@;
    match e {
        ParserErrorView::Lexical(inner) => lemma_scanner_error_message_unbroken(inner),
        ParserErrorView::DuplicateTransition(p, origin, target, q) => {
            let a = pos_text(p) + "Duplicate transition: '"@ + origin + " => "@;
            lemma_framed_unbroken(p, "Duplicate transition: '"@, origin, " => "@);
            lemma_unbroken_concat(a, target);
            lemma_unbroken_concat(a + target, " ("@);
            lemma_pos_text_unbroken(q);
            lemma_unbroken_concat(a + target + " ("@, pos_text(q));
            lemma_unbroken_concat(
                a + target + " ("@ + pos_text(q),
                "already defined here)'"@,
            );
        },
        ParserErrorView::UndefinedIdentifier(p, s) => lemma_framed_unbroken(
            p,
            "Undefined identifier: '"@,
            s,
            quote,
        ),
        ParserErrorView::Unclosed(p, s) => lemma_framed_unbroken(
            p,
            "Unclosed object: '"@,
            s,
            quote,
        ),
        ParserErrorView::DuplicateAttribute(p, s) => lemma_framed_unbroken(
            p,
            "Unattached object specifier: '"@,
            s,
            quote,
        ),
        ParserErrorView::DuplicateWriteMode(p, s) => lemma_framed_unbroken(
            p,
            "Unattached object specifier: '"@,
            s,
            quote,
        ),
        ParserErrorView::UnattachedModifier(p, s) => lemma_framed_unbroken(
            p,
            "Unattached object specifier: '"@,
            s,
            quote,
        ),
        ParserErrorView::ExpectedIdentifier(p, s) => lemma_framed_unbroken(
            p,
            "Expected identifier before: '"@,
            s,
            quote,
        ),
        ParserErrorView::UnbalancedGroup(p) => {
            lemma_pos_text_unbroken(p);
            lemma_unbroken_concat(pos_text(p), "Unbalanced group: ')'"@);
        },
        ParserErrorView::UnbalancedBlock(p) => {
            lemma_pos_text_unbroken(p);
            lemma_unbroken_concat(pos_text(p), "Unbalanced block: '}'"@);
        },
        ParserErrorView::LiteralOutsideGroup(p, s) => lemma_framed_unbroken(
            p,
            "Literal outside group: '"@,
            s,
            quote,
        ),
        ParserErrorView::ReservedTokenUnused(p, s) => lemma_framed_unbroken(
            p,
            "Reserved token: '"@,
            s,
            quote,
        ),
        ParserErrorView::UnexpectedEndOfStatement(p) => {
            lemma_pos_text_unbroken(p);
            lemma_unbroken_concat(pos_text(p), "Unexpected end of statement: ';'"@);
        },
    }
}

/// The text of a lexical error is one line: it starts with the text of the
/// error's position and ends with a line feed, before which stands the
/// message; and it holds no other line feed where neither the source's name
/// nor what the error names holds one.
pub proof fn lemma_scanner_error_text_is_a_line(e: ScannerErrorView)
    ensures
        pos_text(scanner_error_pos(e)).is_prefix_of(scanner_error_text(e)),
        scanner_error_text(e).last() == '\n',
        scanner_error_text(e).drop_last() == scanner_error_message(e),
        scanner_error_unbroken(e) ==> unbroken(scanner_error_message(e)),
{
    let text = scanner_error_text(e);
    let head = pos_text(scanner_error_pos(e));
    assert(text.drop_last() =~= scanner_error_message(e));
    assert(head =~= text.subrange(0, head.len() as int));
    if scanner_error_unbroken(e) {
        lemma_scanner_error_message_unbroken(e);
    }
}

/// The text of a semantic error is one line: it starts with the text of the
/// error's position and ends with a line feed, before which stands the
/// message; and it holds no other line feed where neither the sources' names
/// nor what the error names holds one.
pub proof fn lemma_parser_error_text_is_a_line(e: ParserErrorView)
    ensures
        pos_text(parser_error_pos(e)).is_prefix_of(parser_error_text(e)),
        parser_error_text(e).last() == '\n',
        parser_error_text(e).drop_last() == parser_error_message(e),
        parser_error_unbroken(e) ==> unbroken(parser_error_message(e)),
{
    let text = parser_error_text(e);
    let head = pos_text(parser_error_pos(e));
    assert(text.drop_last() =~= parser_error_message(e));
    assert(head =~= text.subrange(0, head.len() as int));
    if parser_error_unbroken(e) {
        lemma_parser_error_message_unbroken(e);
    }
}

/// The decimal digit of `d`.
fn digit_of(d: usize) -> (c: char)
    requires
        d < 10,
    ensures
        c == digit(d as nat),
{
    if d == 0 {
        '0'
    } else if d == 1 {
        '1'
    } else if d == 2 {
        '2'
    } else if d == 3 {
        '3'
    } else if d == 4 {
        '4'
    } else if d == 5 {
        '5'
    } else if d == 6 {
        '6'
    } else if d == 7 {
        '7'
    } else if d == 8 {
        '8'
    } else {
        '9'
    }
}

/// Appends the decimal digits of `n` to `buf`.
pub fn push_decimal(buf: &mut String, n: usize)
    ensures
        final(buf)@ == old(buf)@ + decimal(n as nat),
    decreases n,
{
    if n >= 10 {
        push_decimal(buf, n / 10);
    }
    buf.push(digit_of(n % 10));
    proof {
        assert(final(buf)@ =~= old(buf)@ + decimal(n as nat));
    }
}

/// Appends the decimal digits of `n` to `buf`, with zeros before them up to
/// three digits.
pub fn push_padded(buf: &mut String, n: usize)
    ensures
        final(buf)@ == old(buf)@ + padded(n as nat, 3),
{
    let ghost before = buf@;
    proof {
        lemma_decimal_len(n as nat);
    }
    if n < 10 {
        buf.push('0');
        buf.push('0');
        proof {
            assert(Seq::new(2, |i: int| '0') =~= seq!['0', '0']);
        }
    } else if n < 100 {
        buf.push('0');
        proof {
            assert(Seq::new(1, |i: int| '0') =~= seq!['0']);
        }
    }
    push_decimal(buf, n);
    proof {
        assert(buf@ =~= before + padded(n as nat, 3));
    }
}

impl Pos {
    /// The text of the position, as it stands before every message.
    pub fn to_string(&self) -> (s: String)
        ensures
            s@ == pos_text(self@),
    {
        let mut s = String::from_str(self.file());
        s.push(':');
        push_padded(&mut s, self.line());
        s.push(':');
        push_padded(&mut s, self.column());
        s.push(' ');
        s.push('-');
        s.push('-');
        s.push('>');
        s.push(' ');
        s.push('\t');
        proof {
            assert(s@ =~= pos_text(self@));
        }
        s
    }
}

/// `head`, then `text`, then `tail`, behind the text of `pos`.
fn framed(pos: &Pos, head: &str, text: &str, tail: &str) -> (s: String)
    ensures
        s@ == pos_text(pos@) + head@ + text@ + tail@,
{
    let mut s = pos.to_string();
    s.append(head);
    s.append(text);
    s.append(tail);
    s
}

impl ScannerError {
    /// The line that reports the error, ended by a line feed.
    pub fn to_string(&self) -> (s: String)
        ensures
            s@ == scanner_error_text(self@),
    {
        let mut s = self.message();
        s.push('\n');
        s
    }

    /// The line that reports the error, without its end.
    fn message(&self) -> (s: String)
        ensures
            s@ == scanner_error_message(self@),
    {
        match self {
            ScannerError::UnfinishedLiteral(p, d) => framed(
                p,
                "Unfinished string litteral with delimiter '",
                d.as_str(),
                "'",
            ),
            ScannerError::UnknownEscape(p, c) => framed(
                p,
                "Unknown escaped character '\\",
                c.as_str(),
                "'",
            ),
            ScannerError::UnknownToken(p, c) => framed(p, "Undefined token '", c.as_str(), "'"),
        }
    }
}

impl ParserError {
    /// The line that reports the error, ended by a line feed.
    pub fn to_string(&self) -> (s: String)
        ensures
            s@ == parser_error_text(self@),
    {
        let mut s = self.message();
        s.push('\n');
        s
    }

    /// The line that reports the error, without its end.
    fn message(&self) -> (s: String)
        ensures
            s@ == parser_error_message(self@),
    {
        match self {
            ParserError::Lexical(e) => e.message(),
            ParserError::DuplicateTransition(p, origin, target, q) => {
                let mut s = framed(p, "Duplicate transition: '", origin.as_str(), " => ");
                s.append(target.as_str());
                s.append(" (");
                let earlier = q.to_string();
                s.append(earlier.as_str());
                s.append("already defined here)'");
                s
            },
            ParserError::UndefinedIdentifier(p, t) => framed(
                p,
                "Undefined identifier: '",
                t.as_str(),
                "'",
            ),
            ParserError::Unclosed(p, t) => framed(p, "Unclosed object: '", t.as_str(), "'"),
            ParserError::DuplicateAttribute(p, t) => framed(
                p,
                "Unattached object specifier: '",
                t.as_str(),
                "'",
            ),
            ParserError::DuplicateWriteMode(p, t) => framed(
                p,
                "Unattached object specifier: '",
                t.as_str(),
                "'",
            ),
            ParserError::UnattachedModifier(p, t) => framed(
                p,
                "Unattached object specifier: '",
                t.as_str(),
                "'",
            ),
            ParserError::ExpectedIdentifier(p, t) => framed(
                p,
                "Expected identifier before: '",
                t.as_str(),
                "'",
            ),
            ParserError::UnbalancedGroup(p) => {
                let mut s = p.to_string();
                s.append("Unbalanced group: ')'");
                s
            },
            ParserError::UnbalancedBlock(p) => {
                let mut s = p.to_string();
                s.append("Unbalanced block: '}'");
                s
            },
            ParserError::LiteralOutsideGroup(p, t) => framed(
                p,
                "Literal outside group: '",
                t.as_str(),
                "'",
            ),
            ParserError::ReservedTokenUnused(p, t) => framed(
                p,
                "Reserved token: '",
                t.as_str(),
                "'",
            ),
            ParserError::UnexpectedEndOfStatement(p) => {
                let mut s = p.to_string();
                s.append("Unexpected end of statement: ';'");
                s
            },
        }
    }
}

/// The text of a token of kind `kind` at `pos`, where `shown` is its payload
/// as it is shown.
pub fn token_line(kind: TokenKind, pos: &Pos, shown: &str) -> (s: String)
    ensures
        s@ == pos_text(pos@) + token_tail(kind, shown@),
{
    let mut s = pos.to_string();
    match kind {
        TokenKind::Comment => {
            s.append("COMMENT[");
            s.append(shown);
            s.append("]");
        },
        TokenKind::OpenGroup => s.append(" ("),
        TokenKind::CloseGroup => s.append(" )"),
        TokenKind::OpenBlock => s.append(" {"),
        TokenKind::CloseBlock => s.append(" }"),
        TokenKind::Identifier => {
            s.append("ID[");
            s.append(shown);
            s.append("]");
        },
        TokenKind::Literal => {
            s.append("LITT[");
            s.append(shown);
            s.append("]");
        },
        TokenKind::Equals => s.append(" ="),
        TokenKind::Star => s.append(" *"),
        TokenKind::Colon => s.append(" :"),
        TokenKind::Caret => s.append(" ^"),
        TokenKind::At => s.append(" @"),
        TokenKind::Dot => s.append(" ."),
        TokenKind::Pipe => s.append(" |"),
        TokenKind::Percent => s.append(" %"),
        TokenKind::Semicolon => s.append(" ;"),
    }
    proof {
        assert(s@ =~= pos_text(pos@) + token_tail(kind, shown@));
    }
    s
}

impl Token {
    /// The line that shows the token.
    pub fn to_string(&self) -> (s: String)
        ensures
            s@ == token_text(self@),
    {
        let shown = debug_string(self.text());
        token_line(self.kind(), self.pos(), shown.as_str())
    }
}

} // verus!
