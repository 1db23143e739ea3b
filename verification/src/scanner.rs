//! Positions, tokens, lexical errors and the scanner that produces them.

use vstd::prelude::*;
use crate::grammar::{
    after, classify, in_run, lemma_advance_one, lemma_lex_used, lemma_moved_twice,
    lemma_quoted_end, lemma_quoted_skip, lemma_run_end, lemma_run_end_skip, lex, lex_all, moved,
    quoted, resolve_escape, run_end, CharClass, Cursor, Quoted, Run,
};
use crate::text::{chars_of, is_alphanumeric, single};

verus! {

/// What a position stands for: the name of the source, and a line and a
/// column that both count from 1.
pub struct PosView {
    pub file: Seq<char>,
    pub line: nat,
    pub column: nat,
}

/// A place in a source text. Line and column are at least 1.
#[derive(Debug, PartialEq, Eq)]
pub struct Pos {
    file: String,
    column: usize,
    line: usize,
}

impl View for Pos {
    type V = PosView;

    closed spec fn view(&self) -> PosView {
        PosView { file: self.file@, line: self.line as nat, column: self.column as nat }
    }
}

impl Pos {
    #[verifier::type_invariant]
    spec fn inv(&self) -> bool {
        self.line >= 1 && self.column >= 1
    }

    /// The position `line`:`column` of the source named `file`.
    pub fn new(file: &str, line: usize, column: usize) -> (p: Pos)
        requires
            line >= 1,
            column >= 1,
        ensures
            p@ == (PosView { file: file@, line: line as nat, column: column as nat }),
    {
        Pos { file: file.to_owned(), column, line }
    }

    /// The name of the source.
    pub fn file(&self) -> (r: &str)
        ensures
            r@ == self@.file,
    {
        self.file.as_str()
    }

    /// The line, counted from 1.
    pub fn line(&self) -> (r: usize)
        ensures
            r == self@.line,
            r >= 1,
    {
        proof {
            use_type_invariant(self);
        }
        self.line
    }

    /// The column, counted from 1.
    pub fn column(&self) -> (r: usize)
        ensures
            r == self@.column,
            r >= 1,
    {
        proof {
            use_type_invariant(self);
        }
        self.column
    }
}

impl Clone for Pos {
    fn clone(&self) -> (p: Pos)
        ensures
            p@ == self@,
    {
        proof {
            use_type_invariant(self);
        }
        Pos { file: self.file.clone(), column: self.column, line: self.line }
    }
}

/// The kinds of token.
#[derive(Clone, Copy, Debug, PartialEq, Eq, Structural)]
pub enum TokenKind {
    Comment,
    OpenGroup,
    CloseGroup,
    OpenBlock,
    CloseBlock,
    Identifier,
    Literal,
    Equals,
    Star,
    Colon,
    Caret,
    At,
    Dot,
    Pipe,
    Percent,
    Semicolon,
}

/// What a token stands for: its kind, where it starts, and its payload, which
/// is empty for the kinds that carry none.
pub struct TokenView {
    pub kind: TokenKind,
    pub pos: PosView,
    pub text: Seq<char>,
}

/// The token of a kind that carries no payload.
pub open spec fn bare(kind: TokenKind, pos: PosView) -> TokenView {
    TokenView { kind, pos, text: Seq::empty() }
}

/// A lexical token with the position of its first character.
#[derive(Clone, Debug, PartialEq, Eq)]
pub enum Token {
    /// A line comment; the payload starts with the `#`.
    Comment(Pos, String),
    /// `(`
    OpenGroup(Pos),
    /// `)`
    CloseGroup(Pos),
    /// `{`
    OpenBlock(Pos),
    /// `}`
    CloseBlock(Pos),
    /// A run of alphanumeric characters.
    Identifier(Pos, String),
    /// A quoted string; the payload is the text between the quotes, with its
    /// escapes resolved.
    Literal(Pos, String),
    /// `=`
    Equals(Pos),
    /// `*`
    Star(Pos),
    /// `:`
    Colon(Pos),
    /// `^`
    Caret(Pos),
    /// `@`
    At(Pos),
    /// `.`
    Dot(Pos),
    /// `|`, which has no meaning yet.
    Pipe(Pos),
    /// `%`
    Percent(Pos),
    /// `;`
    Semicolon(Pos),
}

impl View for Token {
    type V = TokenView;

    open spec fn view(&self) -> TokenView {
        match self {
            Token::Comment(p, s) => TokenView { kind: TokenKind::Comment, pos: p@, text: s@ },
            Token::OpenGroup(p) => bare(TokenKind::OpenGroup, p@),
            Token::CloseGroup(p) => bare(TokenKind::CloseGroup, p@),
            Token::OpenBlock(p) => bare(TokenKind::OpenBlock, p@),
            Token::CloseBlock(p) => bare(TokenKind::CloseBlock, p@),
            Token::Identifier(p, s) => TokenView { kind: TokenKind::Identifier, pos: p@, text: s@ },
            Token::Literal(p, s) => TokenView { kind: TokenKind::Literal, pos: p@, text: s@ },
            Token::Equals(p) => bare(TokenKind::Equals, p@),
            Token::Star(p) => bare(TokenKind::Star, p@),
            Token::Colon(p) => bare(TokenKind::Colon, p@),
            Token::Caret(p) => bare(TokenKind::Caret, p@),
            Token::At(p) => bare(TokenKind::At, p@),
            Token::Dot(p) => bare(TokenKind::Dot, p@),
            Token::Pipe(p) => bare(TokenKind::Pipe, p@),
            Token::Percent(p) => bare(TokenKind::Percent, p@),
            Token::Semicolon(p) => bare(TokenKind::Semicolon, p@),
        }
    }
}

impl Token {
    /// The token of kind `kind` at `pos`. The payload is kept for the kinds
    /// that carry one and dropped for the others.
    pub fn new(kind: TokenKind, pos: Pos, text: String) -> (t: Token)
        ensures
            t@.kind == kind,
            t@.pos == pos@,
            t@.text == if carries_text(kind) { text@ } else { Seq::empty() },
    {
        match kind {
            TokenKind::Comment => Token::Comment(pos, text),
            TokenKind::OpenGroup => Token::OpenGroup(pos),
            TokenKind::CloseGroup => Token::CloseGroup(pos),
            TokenKind::OpenBlock => Token::OpenBlock(pos),
            TokenKind::CloseBlock => Token::CloseBlock(pos),
            TokenKind::Identifier => Token::Identifier(pos, text),
            TokenKind::Literal => Token::Literal(pos, text),
            TokenKind::Equals => Token::Equals(pos),
            TokenKind::Star => Token::Star(pos),
            TokenKind::Colon => Token::Colon(pos),
            TokenKind::Caret => Token::Caret(pos),
            TokenKind::At => Token::At(pos),
            TokenKind::Dot => Token::Dot(pos),
            TokenKind::Pipe => Token::Pipe(pos),
            TokenKind::Percent => Token::Percent(pos),
            TokenKind::Semicolon => Token::Semicolon(pos),
        }
    }

    /// The kind of the token.
    pub fn kind(&self) -> (k: TokenKind)
        ensures
            k == self@.kind,
    {
        match self {
            Token::Comment(_, _) => TokenKind::Comment,
            Token::OpenGroup(_) => TokenKind::OpenGroup,
            Token::CloseGroup(_) => TokenKind::CloseGroup,
            Token::OpenBlock(_) => TokenKind::OpenBlock,
            Token::CloseBlock(_) => TokenKind::CloseBlock,
            Token::Identifier(_, _) => TokenKind::Identifier,
            Token::Literal(_, _) => TokenKind::Literal,
            Token::Equals(_) => TokenKind::Equals,
            Token::Star(_) => TokenKind::Star,
            Token::Colon(_) => TokenKind::Colon,
            Token::Caret(_) => TokenKind::Caret,
            Token::At(_) => TokenKind::At,
            Token::Dot(_) => TokenKind::Dot,
            Token::Pipe(_) => TokenKind::Pipe,
            Token::Percent(_) => TokenKind::Percent,
            Token::Semicolon(_) => TokenKind::Semicolon,
        }
    }

    /// The payload of the token; empty for the kinds that carry none.
    pub fn text(&self) -> (s: &str)
        ensures
            s@ == self@.text,
    {
        match self {
            Token::Comment(_, s) => s.as_str(),
            Token::Identifier(_, s) => s.as_str(),
            Token::Literal(_, s) => s.as_str(),
            _ => {
                let e = "";
                proof {
                    reveal_strlit("");
                    assert(e@ =~= Seq::<char>::empty());
                }
                e
            },
        }
    }

    /// Where the token starts.
    pub fn pos(&self) -> (p: &Pos)
        ensures
            p@ == self@.pos,
    {
        match self {
            Token::Comment(p, _) => p,
            Token::OpenGroup(p) => p,
            Token::CloseGroup(p) => p,
            Token::OpenBlock(p) => p,
            Token::CloseBlock(p) => p,
            Token::Identifier(p, _) => p,
            Token::Literal(p, _) => p,
            Token::Equals(p) => p,
            Token::Star(p) => p,
            Token::Colon(p) => p,
            Token::Caret(p) => p,
            Token::At(p) => p,
            Token::Dot(p) => p,
            Token::Pipe(p) => p,
            Token::Percent(p) => p,
            Token::Semicolon(p) => p,
        }
    }
}

/// Whether tokens of this kind carry a payload.
pub open spec fn carries_text(kind: TokenKind) -> bool {
    kind == TokenKind::Comment || kind == TokenKind::Identifier || kind == TokenKind::Literal
}

/// What a lexical error stands for.
pub enum ScannerErrorView {
    UnfinishedLiteral(PosView, Seq<char>),
    UnknownEscape(PosView, Seq<char>),
    UnknownToken(PosView, Seq<char>),
}

/// An error of the scanner. Each is local to one token: the scanner goes on
/// behind it.
#[derive(Clone, Debug, PartialEq, Eq)]
pub enum ScannerError {
    /// The input ended inside a literal. Holds where the literal starts and
    /// its delimiter.
    UnfinishedLiteral(Pos, String),
    /// A backslash in a literal is followed by a character that is no escape.
    /// Holds where the literal starts and that character.
    UnknownEscape(Pos, String),
    /// A character starts no token. Holds its position and the character.
    UnknownToken(Pos, String),
}

impl View for ScannerError {
    type V = ScannerErrorView;

    open spec fn view(&self) -> ScannerErrorView {
        match self {
            ScannerError::UnfinishedLiteral(p, s) => ScannerErrorView::UnfinishedLiteral(p@, s@),
            ScannerError::UnknownEscape(p, s) => ScannerErrorView::UnknownEscape(p@, s@),
            ScannerError::UnknownToken(p, s) => ScannerErrorView::UnknownToken(p@, s@),
        }
    }
}

/// What one element of the scanner's output stands for.
pub type ItemView = Result<TokenView, ScannerErrorView>;

/// The view of one element of the scanner's output.
pub open spec fn item_view(item: Result<Token, ScannerError>) -> ItemView {
    match item {
        Ok(t) => Ok(t@),
        Err(e) => Err(e@),
    }
}

/// The views of the elements of `items`, in order.
pub open spec fn items_view(items: Seq<Result<Token, ScannerError>>) -> Seq<ItemView> {
    Seq::new(items.len(), |i: int| item_view(items[i]))
}

/// The view of what one call of the scanner returns.
pub open spec fn step_view(r: Option<Result<Token, ScannerError>>) -> Option<ItemView> {
    match r {
        Some(item) => Some(item_view(item)),
        None => None,
    }
}

/// A scanner over one source text: it hands out the elements one by one, in
/// order, each once.
#[derive(Debug)]
pub struct Scanner {
    chars: Vec<char>,
    cursor: usize,
    loc: Pos,
}

impl View for Scanner {
    type V = Cursor;

    closed spec fn view(&self) -> Cursor {
        Cursor { rest: self.chars@.skip(self.cursor as int), pos: self.loc@ }
    }
}

impl Scanner {
    #[verifier::type_invariant]
    spec fn inv(&self) -> bool {
        &&& self.cursor <= self.chars.len()
        &&& self.loc.line + (self.chars.len() - self.cursor) <= usize::MAX
        &&& self.loc.column + (self.chars.len() - self.cursor) <= usize::MAX
    }

    /// A scanner at the start of the text `s` of the source named `filename`.
    /// The text must be short enough for every line and column in it to be
    /// counted.
    pub fn new(s: &str, filename: &str) -> (r: Scanner)
        requires
            s@.len() < usize::MAX,
        ensures
            r@ == (Cursor { rest: s@, pos: PosView { file: filename@, line: 1, column: 1 } }),
    {
        let chars = chars_of(s);
        let r = Scanner { chars, cursor: 0, loc: Pos::new(filename, 1, 1) };
        assert(r.chars@.skip(0) =~= s@);
        r
    }

    /// A scanner at the start of the text `s` of the source named `filename`,
    /// or `None` where the text is too long for one.
    pub fn try_new(s: &str, filename: &str) -> (r: Option<Scanner>)
        ensures
            r is Some <==> s@.len() < usize::MAX,
            r matches Some(scan) ==> scan@ == (Cursor {
                rest: s@,
                pos: PosView { file: filename@, line: 1, column: 1 },
            }),
    {
        let chars = chars_of(s);
        if chars.len() < usize::MAX {
            let r = Scanner { chars, cursor: 0, loc: Pos::new(filename, 1, 1) };
            assert(r.chars@.skip(0) =~= s@);
            Some(r)
        } else {
            None
        }
    }

    /// The position of the next character.
    pub fn position(&self) -> (p: &Pos)
        ensures
            p@ == self@.pos,
    {
        &self.loc
    }

    /// The number of characters that are left.
    pub fn remaining(&self) -> (n: usize)
        ensures
            n == self@.rest.len(),
    {
        proof {
            use_type_invariant(self);
        }
        self.chars.len() - self.cursor
    }

    /// Whether `c` continues a run.
    fn continues(run: Run, c: char) -> (b: bool)
        ensures
            b == in_run(run, c),
    {
        match run {
            Run::Blank => c == ' ' || c == '\t' || c == '\r' || c == '\n',
            Run::Word => is_alphanumeric(c),
            Run::Line => c != '\n',
        }
    }

    /// Takes the next character.
    fn bump(&mut self) -> (c: char)
        requires
            old(self)@.rest.len() > 0,
        ensures
            c == old(self)@.rest[0],
            final(self)@ == moved(old(self)@, 1),
    {
        proof {
            use_type_invariant(&*self);
            use_type_invariant(&self.loc);
        }
        let c = self.chars[self.cursor];
        self.cursor = self.cursor + 1;
        if c == '\n' {
            self.loc.line = self.loc.line + 1;
            self.loc.column = 1;
        } else {
            self.loc.column = self.loc.column + 1;
        }
        proof {
            let s = old(self)@.rest;
            assert(s.take(1) =~= seq![c]);
            lemma_advance_one(old(self)@.pos, c);
            assert(self.chars@.skip(self.cursor as int) =~= s.skip(1));
        }
        c
    }

    /// Takes the longest run at the head of what is left, and appends it to
    /// `buf` if `keep` is set.
    fn sweep(&mut self, run: Run, keep: bool, buf: &mut String)
        ensures
            final(self)@ == moved(old(self)@, run_end(old(self)@.rest, 0, run)),
            final(buf)@ == if keep {
                old(buf)@ + old(self)@.rest.take(run_end(old(self)@.rest, 0, run))
            } else {
                old(buf)@
            },
    {
        let ghost start = self@;
        let ghost kept = buf@;
        let ghost n: int = 0;
        proof {
            use_type_invariant(&*self);
            assert(start.rest.skip(0) =~= start.rest);
            assert(start.rest.take(0) =~= Seq::<char>::empty());
            assert(kept + start.rest.take(0) =~= kept);
        }
        while self.cursor < self.chars.len() && Self::continues(run, self.chars[self.cursor])
            invariant
                0 <= n <= start.rest.len(),
                self@ == moved(start, n),
                self.cursor <= self.chars.len(),
                self@.rest.len() == self.chars.len() - self.cursor,
                self@.rest.len() > 0 ==> self@.rest[0] == self.chars[self.cursor as int],
                run_end(start.rest, n, run) == run_end(start.rest, 0, run),
                buf@ == if keep {
                    kept + start.rest.take(n)
                } else {
                    kept
                },
            decreases start.rest.len() - n,
        {
            let ghost before = self@;
            let c = self.bump();
            if keep {
                buf.push(c);
            }
            proof {
                assert(before.rest[0] == start.rest[n]);
                lemma_moved_twice(start, n, 1);
                assert(start.rest.take(n + 1) =~= start.rest.take(n).push(c));
                assert(kept + start.rest.take(n + 1) =~= (kept + start.rest.take(n)).push(c));
                n = n + 1;
                use_type_invariant(&*self);
            }
        }
        proof {
            if self.cursor < self.chars.len() {
                assert(self@.rest[0] == start.rest[n]);
            }
        }
    }

    /// Takes the body of a literal that `delim` opened, up to and with the
    /// closing quote, or up to and with a character that is no escape, or up
    /// to the end of the text. Returns the literal's text, or the character
    /// that is no escape, or nothing where the text ended first.
    fn literal(&mut self, delim: char) -> (r: Option<Result<String, char>>)
        ensures
            match quoted(old(self)@.rest, 0, delim, Seq::empty()) {
                Quoted::Closed { text, end } => {
                    &&& r matches Some(Ok(t))
                    &&& t@ == text
                    &&& final(self)@ == moved(old(self)@, end)
                },
                Quoted::BadEscape { found, end } => {
                    &&& r == Some(Err::<String, char>(found))
                    &&& final(self)@ == moved(old(self)@, end)
                },
                Quoted::Open => {
                    &&& r is None
                    &&& final(self)@ == moved(old(self)@, old(self)@.rest.len() as int)
                },
            },
    {
        let ghost start = self@;
        let ghost n: int = 0;
        let mut buf = String::new();
        proof {
            use_type_invariant(&*self);
            assert(start.rest.skip(0) =~= start.rest);
            assert(start.rest.take(0) =~= Seq::<char>::empty());
        }
        while self.cursor < self.chars.len()
            invariant
                0 <= n <= start.rest.len(),
                self@ == moved(start, n),
                start == old(self)@,
                self.cursor <= self.chars.len(),
                self@.rest.len() == self.chars.len() - self.cursor,
                quoted(start.rest, n, delim, buf@) == quoted(start.rest, 0, delim, Seq::empty()),
            decreases start.rest.len() - n,
        {
            let c = self.bump();
            proof {
                lemma_moved_twice(start, n, 1);
                use_type_invariant(&*self);
            }
            if c == '\\' {
                if self.cursor >= self.chars.len() {
                    proof {
                        assert(self@.rest.len() == 0);
                        assert(n + 1 == start.rest.len());
                    }
                    return None;
                }
                let e = self.bump();
                proof {
                    lemma_moved_twice(start, n + 1, 1);
                    use_type_invariant(&*self);
                    assert(e == start.rest[n + 1]);
                }
                match resolve_escape(e) {
                    Some(x) => {
                        buf.push(x);
                        proof {
                            n = n + 2;
                        }
                    },
                    None => {
                        return Some(Err(e));
                    },
                }
            } else if c == delim {
                return Some(Ok(buf));
            } else {
                buf.push(c);
                proof {
                    n = n + 1;
                }
            }
        }
        None
    }

    /// The next element of the text, or `None` where only white space is
    /// left. White space before the element is skipped; the element's
    /// position is that of its first character.
    pub fn next(&mut self) -> (r: Option<Result<Token, ScannerError>>)
        ensures
            step_view(r) == lex(old(self)@).item,
            final(self)@ == after(old(self)@),
    {
        let ghost start = self@;
        let ghost s = start.rest;
        let ghost b = run_end(s, 0, Run::Blank);
        let mut text = String::new();
        self.sweep(Run::Blank, false, &mut text);
        proof {
            use_type_invariant(&*self);
            lemma_run_end(s, 0, Run::Blank);
            assert(self@.rest.len() == self.chars.len() - self.cursor);
            assert(self@.rest.len() == s.len() - b);
        }
        if self.cursor >= self.chars.len() {
            return None;
        }
        let at = self.loc.clone();
        let first = self.bump();
        let ghost inner = self@;
        proof {
            lemma_moved_twice(start, b, 1);
            assert(first == s[b]);
            assert(inner.rest =~= s.skip(b + 1));
        }
        match classify(first, is_alphanumeric(first)) {
            CharClass::Comment => {
                text.push(first);
                self.sweep(Run::Line, true, &mut text);
                let ghost n = run_end(inner.rest, 0, Run::Line);
                proof {
                    lemma_run_end_skip(s, b + 1, 0, Run::Line);
                    lemma_run_end(s, b + 1, Run::Line);
                    lemma_moved_twice(start, b + 1, n);
                    assert(text@ =~= s.subrange(b, b + 1 + n));
                    use_type_invariant(&*self);
                    assert(self@.rest.len() == s.len() - (b + 1 + n));
                }
                if self.cursor < self.chars.len() {
                    self.bump();
                    proof {
                        lemma_moved_twice(start, b + 1 + n, 1);
                    }
                }
                Some(Ok(Token::Comment(at, text)))
            },
            CharClass::Word => {
                text.push(first);
                self.sweep(Run::Word, true, &mut text);
                proof {
                    let n = run_end(inner.rest, 0, Run::Word);
                    lemma_run_end_skip(s, b + 1, 0, Run::Word);
                    lemma_run_end(s, b + 1, Run::Word);
                    lemma_moved_twice(start, b + 1, n);
                    assert(text@ =~= s.subrange(b, b + 1 + n));
                }
                Some(Ok(Token::Identifier(at, text)))
            },
            CharClass::Quote => {
                proof {
                    lemma_quoted_skip(s, b + 1, 0, first, Seq::empty());
                    lemma_quoted_end(s, b + 1, first, Seq::empty());
                }
                match self.literal(first) {
                    Some(Ok(body)) => {
                        proof {
                            let end = quoted(s, b + 1, first, Seq::empty())->Closed_end;
                            lemma_moved_twice(start, b + 1, end - (b + 1));
                        }
                        Some(Ok(Token::Literal(at, body)))
                    },
                    Some(Err(found)) => {
                        proof {
                            let end = quoted(s, b + 1, first, Seq::empty())->BadEscape_end;
                            lemma_moved_twice(start, b + 1, end - (b + 1));
                        }
                        Some(Err(ScannerError::UnknownEscape(at, single(found))))
                    },
                    None => {
                        proof {
                            lemma_moved_twice(start, b + 1, s.len() - (b + 1));
                        }
                        Some(Err(ScannerError::UnfinishedLiteral(at, single(first))))
                    },
                }
            },
            CharClass::Mark(kind) => Some(Ok(Token::new(kind, at, text))),
            _ => Some(Err(ScannerError::UnknownToken(at, single(first)))),
        }
    }

    /// All the elements that are left, in order.
    pub fn tokens(self) -> (v: Vec<Result<Token, ScannerError>>)
        ensures
            items_view(v@) == lex_all(self@),
    {
        let ghost start = self@;
        let mut scan = self;
        let mut v: Vec<Result<Token, ScannerError>> = Vec::new();
        proof {
            assert(items_view(v@) + lex_all(scan@) =~= lex_all(start));
        }
        loop
            invariant
                items_view(v@) + lex_all(scan@) == lex_all(start),
            ensures
                items_view(v@) == lex_all(start),
            decreases scan@.rest.len(),
        {
            let ghost before = scan@;
            let ghost done = v@;
            proof {
                lemma_lex_used(before);
            }
            match scan.next() {
                Some(item) => {
                    v.push(item);
                    proof {
                        assert(items_view(v@) =~= items_view(done).push(item_view(item)));
                        assert(items_view(v@) + lex_all(scan@) =~= items_view(done) + lex_all(
                            before,
                        ));
                    }
                },
                None => {
                    proof {
                        assert(items_view(v@) + lex_all(before) =~= items_view(v@));
                    }
                    break ;
                },
            }
        }
        v
    }
}

} // verus!
