//! The lexical rules: which token starts at the head of a text, how much of
//! the text it takes, and where that leaves the position.

use vstd::prelude::*;
use crate::scanner::{ItemView, PosView, ScannerErrorView, TokenKind, TokenView};
use crate::text::alphanumeric;

verus! {

/// What the first character of a token decides.
#[derive(Clone, Copy, Debug, PartialEq, Eq, Structural)]
pub enum CharClass {
    /// Space, tab, carriage return or line feed: skipped.
    Blank,
    /// `#`: a comment up to the end of the line.
    Comment,
    /// An alphanumeric character: an identifier.
    Word,
    /// `'` or `"`: a literal up to the same quote.
    Quote,
    /// A character that is a token by itself.
    Mark(TokenKind),
    /// Anything else.
    Unknown,
}

/// Whether `c` is white space.
pub open spec fn is_blank(c: char) -> bool {
    c == ' ' || c == '\t' || c == '\r' || c == '\n'
}

/// The token that `c` is by itself, if it is one.
pub open spec fn mark_of(c: char) -> Option<TokenKind> {
    if c == '{' {
        Some(TokenKind::OpenBlock)
    } else if c == '}' {
        Some(TokenKind::CloseBlock)
    } else if c == '(' {
        Some(TokenKind::OpenGroup)
    } else if c == ')' {
        Some(TokenKind::CloseGroup)
    } else if c == '=' {
        Some(TokenKind::Equals)
    } else if c == '*' {
        Some(TokenKind::Star)
    } else if c == ':' {
        Some(TokenKind::Colon)
    } else if c == '^' {
        Some(TokenKind::Caret)
    } else if c == '@' {
        Some(TokenKind::At)
    } else if c == '.' {
        Some(TokenKind::Dot)
    } else if c == '|' {
        Some(TokenKind::Pipe)
    } else if c == '%' {
        Some(TokenKind::Percent)
    } else if c == ';' {
        Some(TokenKind::Semicolon)
    } else {
        None
    }
}

/// The class of `c`, given whether it is alphanumeric. The rules apply in
/// this order: white space, comment, identifier, literal, single character.
pub open spec fn class_with(c: char, alnum: bool) -> CharClass {
    if is_blank(c) {
        CharClass::Blank
    } else if c == '#' {
        CharClass::Comment
    } else if alnum {
        CharClass::Word
    } else if c == '\'' || c == '"' {
        CharClass::Quote
    } else {
        match mark_of(c) {
            Some(k) => CharClass::Mark(k),
            None => CharClass::Unknown,
        }
    }
}

/// The class of `c`.
pub open spec fn class_of(c: char) -> CharClass {
    class_with(c, alphanumeric(c))
}

/// The character that `\` followed by `c` stands for in a literal.
pub open spec fn unescape(c: char) -> Option<char> {
    if c == 'n' {
        Some('\n')
    } else if c == 't' {
        Some('\t')
    } else if c == 'r' {
        Some('\r')
    } else if c == '\\' || c == '"' || c == '\'' {
        Some(c)
    } else {
        None
    }
}

/// The position behind a character `c` that stands at `p`: a line feed leads
/// to the first column of the next line, any other character to the next
/// column.
pub open spec fn step(p: PosView, c: char) -> PosView {
    if c == '\n' {
        PosView { file: p.file, line: p.line + 1, column: 1 }
    } else {
        PosView { file: p.file, line: p.line, column: p.column + 1 }
    }
}

/// The position behind the text `s` that starts at `p`.
pub open spec fn advance(p: PosView, s: Seq<char>) -> PosView
    decreases s.len(),
{
    if s.len() == 0 {
        p
    } else {
        step(advance(p, s.drop_last()), s.last())
    }
}

/// The runs of characters that the scanner takes in one sweep.
#[derive(Clone, Copy, Debug, PartialEq, Eq, Structural)]
pub enum Run {
    /// White space.
    Blank,
    /// Alphanumeric characters.
    Word,
    /// Everything up to a line feed.
    Line,
}

/// Whether `c` continues a run.
pub open spec fn in_run(r: Run, c: char) -> bool {
    match r {
        Run::Blank => is_blank(c),
        Run::Word => alphanumeric(c),
        Run::Line => c != '\n',
    }
}

/// The index behind the longest run that starts at index `i` of `s`.
pub open spec fn run_end(s: Seq<char>, i: int, r: Run) -> int
    decreases s.len() - i,
{
    if 0 <= i < s.len() && in_run(r, s[i]) {
        run_end(s, i + 1, r)
    } else {
        i
    }
}

/// How the scan of a literal's body ends.
pub enum Quoted {
    /// The closing quote was found: the text with its escapes resolved, and
    /// the index behind the closing quote.
    Closed { text: Seq<char>, end: int },
    /// A backslash is followed by `found`, which is no escape; `end` is the
    /// index behind `found`.
    BadEscape { found: char, end: int },
    /// The text ended first.
    Open,
}

/// The scan of a literal's body from index `i` of `s`, where `delim` is the
/// quote that opened it and `acc` the text gathered so far.
pub open spec fn quoted(s: Seq<char>, i: int, delim: char, acc: Seq<char>) -> Quoted
    decreases s.len() - i,
{
    if i < 0 || i >= s.len() {
        Quoted::Open
    } else if s[i] == '\\' {
        if i + 1 >= s.len() {
            Quoted::Open
        } else {
            match unescape(s[i + 1]) {
                Some(c) => quoted(s, i + 2, delim, acc.push(c)),
                None => Quoted::BadEscape { found: s[i + 1], end: i + 2 },
            }
        }
    } else if s[i] == delim {
        Quoted::Closed { text: acc, end: i + 1 }
    } else {
        quoted(s, i + 1, delim, acc.push(s[i]))
    }
}

/// What is left to scan, and the position of its first character.
pub struct Cursor {
    pub rest: Seq<char>,
    pub pos: PosView,
}

/// The outcome of one scan: the element produced, if the text held one, and
/// the number of characters taken.
pub struct Lexed {
    pub item: Option<ItemView>,
    pub used: int,
}

/// One scan at `c`. White space is skipped first; the element's position is
/// that of the first character after it.
pub open spec fn lex(c: Cursor) -> Lexed {
    let s = c.rest;
    let b = run_end(s, 0, Run::Blank);
    let at = advance(c.pos, s.take(b));
    if b >= s.len() {
        Lexed { item: None, used: s.len() as int }
    } else {
        match class_of(s[b]) {
            CharClass::Comment => {
                let e = run_end(s, b + 1, Run::Line);
                Lexed {
                    item: Some(
                        Ok(TokenView { kind: TokenKind::Comment, pos: at, text: s.subrange(b, e) }),
                    ),
                    used: if e < s.len() { e + 1 } else { e },
                }
            },
            CharClass::Word => {
                let e = run_end(s, b + 1, Run::Word);
                Lexed {
                    item: Some(
                        Ok(
                            TokenView {
                                kind: TokenKind::Identifier,
                                pos: at,
                                text: s.subrange(b, e),
                            },
                        ),
                    ),
                    used: e,
                }
            },
            CharClass::Quote => {
                match quoted(s, b + 1, s[b], Seq::empty()) {
                    Quoted::Closed { text, end } => Lexed {
                        item: Some(Ok(TokenView { kind: TokenKind::Literal, pos: at, text })),
                        used: end,
                    },
                    Quoted::BadEscape { found, end } => Lexed {
                        item: Some(Err(ScannerErrorView::UnknownEscape(at, seq![found]))),
                        used: end,
                    },
                    Quoted::Open => Lexed {
                        item: Some(Err(ScannerErrorView::UnfinishedLiteral(at, seq![s[b]]))),
                        used: s.len() as int,
                    },
                }
            },
            CharClass::Mark(kind) => Lexed {
                item: Some(Ok(TokenView { kind, pos: at, text: Seq::empty() })),
                used: b + 1,
            },
            _ => Lexed {
                item: Some(Err(ScannerErrorView::UnknownToken(at, seq![s[b]]))),
                used: b + 1,
            },
        }
    }
}

/// The cursor `c` moved over its first `n` characters.
pub open spec fn moved(c: Cursor, n: int) -> Cursor {
    Cursor { rest: c.rest.skip(n), pos: advance(c.pos, c.rest.take(n)) }
}

/// Where one scan at `c` leaves the cursor.
pub open spec fn after(c: Cursor) -> Cursor {
    moved(c, lex(c).used)
}

/// The class of `c`, given whether it is alphanumeric.
pub fn classify(c: char, alnum: bool) -> (k: CharClass)
    ensures
        k == class_with(c, alnum),
{
    if c == ' ' || c == '\t' || c == '\r' || c == '\n' {
        CharClass::Blank
    } else if c == '#' {
        CharClass::Comment
    } else if alnum {
        CharClass::Word
    } else if c == '\'' || c == '"' {
        CharClass::Quote
    } else if c == '{' {
        CharClass::Mark(TokenKind::OpenBlock)
    } else if c == '}' {
        CharClass::Mark(TokenKind::CloseBlock)
    } else if c == '(' {
        CharClass::Mark(TokenKind::OpenGroup)
    } else if c == ')' {
        CharClass::Mark(TokenKind::CloseGroup)
    } else if c == '=' {
        CharClass::Mark(TokenKind::Equals)
    } else if c == '*' {
        CharClass::Mark(TokenKind::Star)
    } else if c == ':' {
        CharClass::Mark(TokenKind::Colon)
    } else if c == '^' {
        CharClass::Mark(TokenKind::Caret)
    } else if c == '@' {
        CharClass::Mark(TokenKind::At)
    } else if c == '.' {
        CharClass::Mark(TokenKind::Dot)
    } else if c == '|' {
        CharClass::Mark(TokenKind::Pipe)
    } else if c == '%' {
        CharClass::Mark(TokenKind::Percent)
    } else if c == ';' {
        CharClass::Mark(TokenKind::Semicolon)
    } else {
        CharClass::Unknown
    }
}

/// The character that `\` followed by `c` stands for in a literal, if `c` is
/// an escape.
pub fn resolve_escape(c: char) -> (r: Option<char>)
    ensures
        r == unescape(c),
{
    if c == 'n' {
        Some('\n')
    } else if c == 't' {
        Some('\t')
    } else if c == 'r' {
        Some('\r')
    } else if c == '\\' || c == '"' || c == '\'' {
        Some(c)
    } else {
        None
    }
}

/// A run ends inside the text, behind characters that all belong to it and
/// before one that does not.
pub proof fn lemma_run_end(s: Seq<char>, i: int, r: Run)
    requires
        0 <= i <= s.len(),
    ensures
        i <= run_end(s, i, r) <= s.len(),
        forall|j: int| i <= j < run_end(s, i, r) ==> in_run(r, #[trigger] s[j]),
        run_end(s, i, r) < s.len() ==> !in_run(r, s[run_end(s, i, r)]),
    decreases s.len() - i,
{
    if i < s.len() && in_run(r, s[i]) {
        lemma_run_end(s, i + 1, r);
    }
}

/// A run found in what is left behind the first `k` characters is the run
/// found in the whole text, `k` places on.
pub proof fn lemma_run_end_skip(s: Seq<char>, k: int, i: int, r: Run)
    requires
        0 <= k,
        0 <= i,
        k + i <= s.len(),
    ensures
        run_end(s.skip(k), i, r) + k == run_end(s, i + k, r),
    decreases s.len() - k - i,
{
    if i < s.skip(k).len() && in_run(r, s.skip(k)[i]) {
        lemma_run_end_skip(s, k, i + 1, r);
    }
}

/// The same for a literal's scan.
pub proof fn lemma_quoted_skip(s: Seq<char>, k: int, i: int, delim: char, acc: Seq<char>)
    requires
        0 <= k,
        0 <= i,
        k + i <= s.len(),
    ensures
        match quoted(s, i + k, delim, acc) {
            Quoted::Closed { text, end } => quoted(s.skip(k), i, delim, acc) == (Quoted::Closed {
                text,
                end: end - k,
            }),
            Quoted::BadEscape { found, end } => quoted(s.skip(k), i, delim, acc)
                == (Quoted::BadEscape { found, end: end - k }),
            Quoted::Open => quoted(s.skip(k), i, delim, acc) == Quoted::Open,
        },
    decreases s.len() - k - i,
{
    let t = s.skip(k);
    if i < t.len() {
        if t[i] == '\\' {
            if i + 1 < t.len() {
                match unescape(t[i + 1]) {
                    Some(c) => lemma_quoted_skip(s, k, i + 2, delim, acc.push(c)),
                    None => {},
                }
            }
        } else if t[i] != delim {
            lemma_quoted_skip(s, k, i + 1, delim, acc.push(t[i]));
        }
    }
}

/// To advance over a text is to advance over its first part and then over
/// the rest.
pub proof fn lemma_advance_concat(p: PosView, a: Seq<char>, b: Seq<char>)
    ensures
        advance(p, a + b) == advance(advance(p, a), b),
    decreases b.len(),
{
    if b.len() == 0 {
        assert(a + b =~= a);
    } else {
        lemma_advance_concat(p, a, b.drop_last());
        assert((a + b).drop_last() =~= a + b.drop_last());
        assert((a + b).last() == b.last());
    }
}

/// To advance over one character is to take one step.
pub proof fn lemma_advance_one(p: PosView, c: char)
    ensures
        advance(p, seq![c]) == step(p, c),
{
    assert(seq![c].drop_last() =~= Seq::<char>::empty());
    assert(advance(p, seq![c].drop_last()) == p);
}

/// To move a cursor twice is to move it once over both parts.
pub proof fn lemma_moved_twice(c: Cursor, a: int, b: int)
    requires
        0 <= a,
        0 <= b,
        a + b <= c.rest.len(),
    ensures
        moved(moved(c, a), b) == moved(c, a + b),
{
    let s = c.rest;
    assert(s.skip(a).skip(b) =~= s.skip(a + b));
    assert(s.take(a) + s.skip(a).take(b) =~= s.take(a + b));
    lemma_advance_concat(c.pos, s.take(a), s.skip(a).take(b));
}

/// A literal's scan ends behind the index it started at, inside the text.
pub proof fn lemma_quoted_end(s: Seq<char>, i: int, delim: char, acc: Seq<char>)
    requires
        0 <= i <= s.len(),
    ensures
        match quoted(s, i, delim, acc) {
            Quoted::Closed { text, end } => i < end <= s.len(),
            Quoted::BadEscape { found, end } => i + 1 < end <= s.len(),
            Quoted::Open => true,
        },
    decreases s.len() - i,
{
    if i < s.len() {
        if s[i] == '\\' {
            if i + 1 < s.len() {
                match unescape(s[i + 1]) {
                    Some(c) => lemma_quoted_end(s, i + 2, delim, acc.push(c)),
                    None => {},
                }
            }
        } else if s[i] != delim {
            lemma_quoted_end(s, i + 1, delim, acc.push(s[i]));
        }
    }
}

/// One scan takes no more than the text holds; it takes at least one
/// character where it produces an element, and the whole text where it
/// produces none.
pub proof fn lemma_lex_used(c: Cursor)
    ensures
        0 <= lex(c).used <= c.rest.len(),
        lex(c).item is Some ==> lex(c).used >= 1,
        lex(c).item is None ==> lex(c).used == c.rest.len(),
{
    let s = c.rest;
    lemma_run_end(s, 0, Run::Blank);
    let b = run_end(s, 0, Run::Blank);
    if b < s.len() {
        lemma_run_end(s, b + 1, Run::Line);
        lemma_run_end(s, b + 1, Run::Word);
        lemma_quoted_end(s, b + 1, s[b], Seq::empty());
    }
}

/// Every element of the text at `c`, in order.
pub open spec fn lex_all(c: Cursor) -> Seq<ItemView>
    decreases c.rest.len(),
{
    match lex(c).item {
        None => Seq::empty(),
        Some(item) => {
            proof {
                lemma_lex_used(c);
            }
            seq![item] + lex_all(after(c))
        },
    }
}

/// Whether `a` comes before `b`, by line and then by column.
pub open spec fn before(a: PosView, b: PosView) -> bool {
    a.line < b.line || (a.line == b.line && a.column < b.column)
}

/// Whether `a` is `b` or comes before it.
pub open spec fn not_after(a: PosView, b: PosView) -> bool {
    a.line < b.line || (a.line == b.line && a.column <= b.column)
}

/// The position that an element carries.
pub open spec fn item_pos(item: ItemView) -> PosView {
    match item {
        Ok(t) => t.pos,
        Err(ScannerErrorView::UnfinishedLiteral(p, _)) => p,
        Err(ScannerErrorView::UnknownEscape(p, _)) => p,
        Err(ScannerErrorView::UnknownToken(p, _)) => p,
    }
}

/// To advance never leads back, nor to another source, nor before line 1 or
/// column 1; over at least one character it leads on.
pub proof fn lemma_advance_order(p: PosView, s: Seq<char>)
    ensures
        advance(p, s).file == p.file,
        not_after(p, advance(p, s)),
        s.len() > 0 ==> before(p, advance(p, s)),
        p.line >= 1 && p.column >= 1 ==> advance(p, s).line >= 1 && advance(p, s).column >= 1,
    decreases s.len(),
{
    if s.len() > 0 {
        lemma_advance_order(p, s.drop_last());
    }
}

/// The element that one scan produces stands at or behind the cursor, in the
/// cursor's source, and before the place where the scan leaves the cursor.
pub proof fn lemma_lex_order(c: Cursor)
    requires
        lex(c).item is Some,
    ensures
        item_pos(lex(c).item->0).file == c.pos.file,
        not_after(c.pos, item_pos(lex(c).item->0)),
        before(item_pos(lex(c).item->0), after(c).pos),
        after(c).pos.file == c.pos.file,
{
    let s = c.rest;
    let b = run_end(s, 0, Run::Blank);
    let n = lex(c).used;
    lemma_run_end(s, 0, Run::Blank);
    lemma_run_end(s, b + 1, Run::Line);
    lemma_run_end(s, b + 1, Run::Word);
    lemma_quoted_end(s, b + 1, s[b], Seq::empty());
    assert(b < n <= s.len());
    let at = advance(c.pos, s.take(b));
    assert(item_pos(lex(c).item->0) == at);
    lemma_advance_order(c.pos, s.take(b));
    assert(s.take(n) =~= s.take(b) + s.subrange(b, n));
    lemma_advance_concat(c.pos, s.take(b), s.subrange(b, n));
    lemma_advance_order(at, s.subrange(b, n));
}

/// The positions of the elements of a text never go back: every element
/// stands at or behind the cursor, and each one before all that follow it.
pub proof fn lemma_positions_increase(c: Cursor)
    ensures
        forall|i: int|
            0 <= i < lex_all(c).len() ==> not_after(c.pos, item_pos(#[trigger] lex_all(c)[i])),
        forall|i: int, j: int|
            0 <= i < j < lex_all(c).len() ==> before(
                item_pos(#[trigger] lex_all(c)[i]),
                item_pos(#[trigger] lex_all(c)[j]),
            ),
    decreases c.rest.len(),
{
    if lex(c).item is Some {
        lemma_lex_used(c);
        lemma_lex_order(c);
        let next = after(c);
        lemma_positions_increase(next);
        let all = lex_all(c);
        let tail = lex_all(next);
        assert(all == seq![lex(c).item->0] + tail);
        assert forall|i: int| 0 <= i < all.len() implies not_after(
            c.pos,
            item_pos(#[trigger] all[i]),
        ) by {
            if i > 0 {
                assert(all[i] == tail[i - 1]);
            }
        }
        assert forall|i: int, j: int| 0 <= i < j < all.len() implies before(
            item_pos(#[trigger] all[i]),
            item_pos(#[trigger] all[j]),
        ) by {
            assert(all[j] == tail[j - 1]);
            if i > 0 {
                assert(all[i] == tail[i - 1]);
            }
        }
    }
}

/// Every element of a text carries the name of the text's source, and a line
/// and a column of at least 1 where the cursor has them so.
pub proof fn lemma_positions_valid(c: Cursor)
    ensures
        forall|i: int|
            0 <= i < lex_all(c).len() ==> {
                let p = item_pos(#[trigger] lex_all(c)[i]);
                &&& p.file == c.pos.file
                &&& (c.pos.line >= 1 && c.pos.column >= 1 ==> p.line >= 1 && p.column >= 1)
            },
    decreases c.rest.len(),
{
    if lex(c).item is Some {
        lemma_lex_used(c);
        lemma_lex_order(c);
        let next = after(c);
        lemma_positions_valid(next);
        let all = lex_all(c);
        let tail = lex_all(next);
        assert(all == seq![lex(c).item->0] + tail);
        lemma_advance_order(c.pos, c.rest.take(run_end(c.rest, 0, Run::Blank)));
        lemma_advance_order(c.pos, c.rest.take(lex(c).used));
        assert forall|i: int| 0 <= i < all.len() implies {
            let p = item_pos(#[trigger] all[i]);
            &&& p.file == c.pos.file
            &&& (c.pos.line >= 1 && c.pos.column >= 1 ==> p.line >= 1 && p.column >= 1)
        } by {
            if i > 0 {
                assert(all[i] == tail[i - 1]);
            }
        }
    }
}

/// A text holds no more elements than characters.
pub proof fn lemma_lex_all_bounded(c: Cursor)
    ensures
        lex_all(c).len() <= c.rest.len(),
    decreases c.rest.len(),
{
    if lex(c).item is Some {
        lemma_lex_used(c);
        lemma_lex_all_bounded(after(c));
    }
}

/// A character that starts no token, at the head of the text, is one error
/// that names the character and its position, and takes one column:
/// whatever follows it is scanned as if it stood one column further in a
/// text without it.
pub proof fn lemma_unknown_character(c: Cursor)
    requires
        c.rest.len() > 0,
        class_of(c.rest[0]) == CharClass::Unknown,
    ensures
        lex(c).item == Some(
            Err::<TokenView, ScannerErrorView>(
                ScannerErrorView::UnknownToken(c.pos, seq![c.rest[0]]),
            ),
        ),
        after(c) == (Cursor {
            rest: c.rest.drop_first(),
            pos: PosView { file: c.pos.file, line: c.pos.line, column: c.pos.column + 1 },
        }),
{
    let s = c.rest;
    assert(run_end(s, 0, Run::Blank) == 0);
    assert(s.take(0) =~= Seq::<char>::empty());
    assert(s.take(1) =~= seq![s[0]]);
    lemma_advance_one(c.pos, s[0]);
    assert(s.skip(1) =~= s.drop_first());
}

/// A sign at the head of the text is one token of its kind, at the cursor's
/// position and without payload, and takes one column.
pub proof fn lemma_sign(c: Cursor, kind: TokenKind)
    requires
        c.rest.len() > 0,
        class_of(c.rest[0]) == CharClass::Mark(kind),
    ensures
        lex(c).item == Some(
            Ok::<TokenView, ScannerErrorView>(TokenView { kind, pos: c.pos, text: Seq::empty() }),
        ),
        after(c) == (Cursor {
            rest: c.rest.drop_first(),
            pos: PosView { file: c.pos.file, line: c.pos.line, column: c.pos.column + 1 },
        }),
{
    let s = c.rest;
    assert(run_end(s, 0, Run::Blank) == 0);
    assert(s.take(0) =~= Seq::<char>::empty());
    assert(s.take(1) =~= seq![s[0]]);
    lemma_advance_one(c.pos, s[0]);
    assert(s.skip(1) =~= s.drop_first());
}

/// What a text holds depends on the text and the starting position alone:
/// two cursors that agree in both hold the same elements.
pub proof fn lemma_lex_all_determined(a: Cursor, b: Cursor)
    requires
        a.rest == b.rest,
        a.pos == b.pos,
    ensures
        lex_all(a) == lex_all(b),
{
}

} // verus!
