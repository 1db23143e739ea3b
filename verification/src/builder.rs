//! The builder: it takes the scanner's elements one by one and fills the
//! symbol table.

use vstd::prelude::*;
use crate::kinds::{Attribute, Context, StateTypes, WritingBehaviour};
use crate::parser::{
    errors_view, indices_view, objects_view, transitions_view, values_view, Object, ObjectView,
    ParserError, Symbols, Transition, TransitionView,
};
use crate::rules::{
    clashes, close, current, declare, dot, feed, finish, finish_transition, flag, name, note,
    select, sign, start, terminate, unclosed, value, BuilderView, NameView,
};
use crate::scanner::{item_view, Pos, ScannerError, Token, TokenKind};
use crate::text::single;

verus! {

/// A name that waits to be used, with the position of its token.
#[derive(Debug)]
pub struct Name {
    pub pos: Pos,
    pub text: String,
}

impl View for Name {
    type V = NameView;

    open spec fn view(&self) -> NameView {
        NameView { pos: self.pos@, text: self.text@ }
    }
}

/// The views of the names of `s`, in order.
pub open spec fn names_view(s: Seq<Name>) -> Seq<NameView> {
    Seq::new(s.len(), |i: int| s[i]@)
}

/// The state that the builder carries from one token to the next: the table
/// under construction, the open constructs, the names that wait, and the
/// roles and the write mode gathered for what comes next.
#[derive(Debug)]
pub struct Builder {
    table: Symbols,
    contexts: Vec<Context>,
    pending: Vec<Name>,
    mode: WritingBehaviour,
    t: StateTypes,
    verbose: bool,
}

impl View for Builder {
    type V = BuilderView;

    closed spec fn view(&self) -> BuilderView {
        BuilderView {
            objects: objects_view(self.table.objects@),
            values: values_view(self.table.values@),
            errors: errors_view(self.table.errors@),
            contexts: self.contexts@,
            pending: names_view(self.pending@),
            mode: self.mode,
            t: self.t,
            verbose: self.verbose,
        }
    }
}

/// The sign of a token that is a single character; empty for the other
/// kinds.
pub fn sign_of(kind: TokenKind) -> (s: String)
    ensures
        s@ == sign(kind),
{
    match kind {
        TokenKind::OpenGroup => single('('),
        TokenKind::CloseGroup => single(')'),
        TokenKind::OpenBlock => single('{'),
        TokenKind::CloseBlock => single('}'),
        TokenKind::Equals => single('='),
        TokenKind::Star => single('*'),
        TokenKind::Colon => single(':'),
        TokenKind::Caret => single('^'),
        TokenKind::At => single('@'),
        TokenKind::Dot => single('.'),
        TokenKind::Pipe => single('|'),
        TokenKind::Percent => single('%'),
        TokenKind::Semicolon => single(';'),
        _ => String::new(),
    }
}

impl Builder {
    /// The builder before the first token. With `verbose` set it records the
    /// scanner's errors, else it drops them.
    pub fn new(verbose: bool) -> (b: Builder)
        ensures
            b@ == start(verbose),
    {
        let b = Builder {
            table: Symbols { objects: Vec::new(), values: Vec::new(), errors: Vec::new() },
            contexts: Vec::new(),
            pending: Vec::new(),
            mode: WritingBehaviour::WriteAfter,
            t: StateTypes::through(),
            verbose,
        };
        proof {
            assert(b@.objects =~= Seq::empty());
            assert(b@.values =~= Seq::empty());
            assert(b@.errors =~= Seq::empty());
            assert(b@.pending =~= Seq::empty());
            assert(b@.contexts =~= Seq::empty());
        }
        b
    }

    /// The innermost open construct.
    pub fn current(&self) -> (c: Context)
        ensures
            c == current(self@),
    {
        let n = self.contexts.len();
        if n == 0 {
            Context::Top
        } else {
            self.contexts[n - 1]
        }
    }

    /// The number of names that wait.
    pub fn waiting(&self) -> (n: usize)
        ensures
            n == self@.pending.len(),
    {
        self.pending.len()
    }

    /// The number of constructs that are open.
    pub fn depth(&self) -> (n: usize)
        ensures
            n == self@.contexts.len(),
    {
        self.contexts.len()
    }

    /// Records one error.
    fn note(&mut self, e: ParserError)
        ensures
            final(self)@ == note(old(self)@, e@),
            final(self).table.objects == old(self).table.objects,
            final(self).pending == old(self).pending,
    {
        self.table.errors.push(e);
        proof {
            assert(errors_view(self.table.errors@) =~= errors_view(old(self).table.errors@).push(
                e@,
            ));
        }
    }

    /// Lets a name wait.
    fn name(&mut self, pos: Pos, text: String)
        ensures
            final(self)@ == name(old(self)@, pos@, text@),
    {
        let n = Name { pos, text };
        self.pending.push(n);
        proof {
            assert(names_view(self.pending@) =~= names_view(old(self).pending@).push(n@));
        }
    }

    /// `(` or `{` at `pos`, which opens `inner`.
    fn declare(&mut self, pos: Pos, kind: TokenKind, inner: Context)
        ensures
            final(self)@ == declare(old(self)@, pos@, kind, inner),
    {
        let n = self.pending.len();
        if n == 0 {
            self.note(ParserError::ExpectedIdentifier(pos, sign_of(kind)));
            return ;
        }
        let found = self.table.index_of(&self.pending[n - 1].text);
        if found.is_none() {
            let o = Object {
                values: Vec::new(),
                id: self.pending[n - 1].text.clone(),
                transitions: Vec::new(),
                loc: self.pending[n - 1].pos.clone(),
                t: self.t,
            };
            proof {
                assert(o@.values =~= Seq::empty());
                assert(o@.transitions =~= Seq::empty());
            }
            self.table.objects.push(o);
            proof {
                assert(objects_view(self.table.objects@) =~= objects_view(
                    old(self).table.objects@,
                ).push(o@));
            }
        }
        self.t = StateTypes::through();
        self.contexts.push(inner);
    }

    /// `)` or `}` at `pos`, which closes `inner`.
    fn close(&mut self, pos: Pos, inner: Context)
        requires
            inner == Context::GroupBody || inner == Context::BlockBody,
        ensures
            final(self)@ == close(old(self)@, pos@, inner),
    {
        if self.current() == inner {
            self.contexts.pop();
        } else {
            match inner {
                Context::GroupBody => self.note(ParserError::UnbalancedGroup(pos)),
                _ => self.note(ParserError::UnbalancedBlock(pos)),
            }
        }
    }

    /// A literal at `pos`.
    fn value(&mut self, pos: Pos, text: String)
        ensures
            final(self)@ == value(old(self)@, pos@, text@),
    {
        if self.current() != Context::GroupBody {
            self.note(ParserError::LiteralOutsideGroup(pos, text));
            return ;
        }
        let n = self.pending.len();
        if n == 0 {
            self.note(ParserError::UnattachedModifier(pos, text));
            return ;
        }
        match self.table.index_of(&self.pending[n - 1].text) {
            None => {
                let e = ParserError::UndefinedIdentifier(
                    self.pending[n - 1].pos.clone(),
                    self.pending[n - 1].text.clone(),
                );
                self.note(e);
            },
            Some(i) => {
                let k = self.table.values.len();
                let ghost entry = (text@, pos@);
                self.table.values.push((text, pos));
                self.table.objects[i].values.push(k);
                proof {
                    let before = old(self)@;
                    let o = before.objects[i as int];
                    assert(values_view(self.table.values@) =~= before.values.push(entry));
                    assert(indices_view(self.table.objects[i as int].values@) =~= o.values.push(
                        k as nat,
                    ));
                    assert(objects_view(self.table.objects@) =~= before.objects.update(
                        i as int,
                        ObjectView { values: o.values.push(k as nat), ..o },
                    ));
                }
            },
        }
    }

    /// `*` or `:` at `pos`, which gives the next object the role `a`.
    fn flag(&mut self, pos: Pos, kind: TokenKind, a: Attribute)
        ensures
            final(self)@ == flag(old(self)@, pos@, kind, a),
    {
        if self.pending.len() == 0 {
            self.note(ParserError::UnattachedModifier(pos, sign_of(kind)));
        } else if self.t.contains(a) {
            self.note(ParserError::DuplicateAttribute(pos, sign_of(kind)));
        } else {
            self.t = self.t.with(a);
        }
    }

    /// `^` or `%` at `pos`, which chooses the write mode `mode`.
    fn select(&mut self, pos: Pos, kind: TokenKind, mode: WritingBehaviour)
        ensures
            final(self)@ == select(old(self)@, pos@, kind, mode),
    {
        if self.current() != Context::TransitionBody {
            self.note(ParserError::UnattachedModifier(pos, sign_of(kind)));
        } else if self.mode != WritingBehaviour::WriteAfter {
            self.note(ParserError::DuplicateWriteMode(pos, sign_of(kind)));
        } else {
            self.mode = mode;
        }
    }

    /// `.` at `pos`.
    fn dot(&mut self, pos: Pos)
        ensures
            final(self)@ == dot(old(self)@, pos@),
    {
        if self.current() == Context::TransitionBody {
            self.name(pos, sign_of(TokenKind::Dot));
        } else {
            self.note(ParserError::UnattachedModifier(pos, sign_of(TokenKind::Dot)));
        }
    }

    /// Records one error for each transition of the object at index `i` that
    /// has the origin of the transition from `origin` to `target`.
    fn note_clashes(&mut self, i: usize, origin: &Name, target: &Name)
        requires
            i < old(self)@.objects.len(),
        ensures
            final(self)@ == (BuilderView {
                errors: old(self)@.errors + clashes(
                    old(self)@.objects[i as int].transitions,
                    TransitionView {
                        pos: origin@.pos,
                        origin: origin@.text,
                        target: target@.text,
                        mode: old(self)@.mode,
                    },
                ),
                ..old(self)@
            }),
    {
        let ghost before = self@;
        let ghost ts = before.objects[i as int].transitions;
        let ghost new = TransitionView {
            pos: origin@.pos,
            origin: origin@.text,
            target: target@.text,
            mode: before.mode,
        };
        let n = self.table.objects[i].transitions.len();
        let mut k: usize = 0;
        proof {
            assert(ts.take(0) =~= Seq::empty());
            assert(before.errors + clashes(ts.take(0), new) =~= before.errors);
        }
        while k < n
            invariant
                k <= n,
                i < self.table.objects.len(),
                n == self.table.objects[i as int].transitions.len(),
                n == ts.len(),
                ts == transitions_view(self.table.objects[i as int].transitions@),
                self@ == (BuilderView {
                    errors: before.errors + clashes(ts.take(k as int), new),
                    ..before
                }),
                new == (TransitionView {
                    pos: origin@.pos,
                    origin: origin@.text,
                    target: target@.text,
                    mode: before.mode,
                }),
            decreases n - k,
        {
            let ghost here = self@;
            proof {
                assert(ts.take(k + 1).drop_last() =~= ts.take(k as int));
                assert(ts.take(k + 1).last() == ts[k as int]);
            }
            if self.table.objects[i].transitions[k].origin == origin.text {
                let e = ParserError::DuplicateTransition(
                    origin.pos.clone(),
                    origin.text.clone(),
                    target.text.clone(),
                    self.table.objects[i].transitions[k].pos.clone(),
                );
                self.note(e);
                proof {
                    assert(here.errors.push(e@) =~= before.errors + clashes(
                        ts.take(k + 1),
                        new,
                    ));
                }
            }
            k = k + 1;
        }
        proof {
            assert(ts.take(n as int) =~= ts);
        }
    }

    /// `;` at `pos` inside a transition.
    fn finish_transition(&mut self, pos: Pos)
        requires
            current(old(self)@) == Context::TransitionBody,
        ensures
            final(self)@ == finish_transition(old(self)@, pos@),
    {
        let ghost before = self@;
        let n = self.pending.len();
        if n < 3 {
            if n >= 1 {
                self.pending.pop();
            }
            if n >= 2 {
                self.pending.pop();
            }
            proof {
                assert(names_view(self.pending@) =~= before.pending.take(
                    if n >= 2 {
                        n - 2
                    } else {
                        0
                    },
                ));
            }
            self.note(ParserError::UnexpectedEndOfStatement(pos));
            return ;
        }
        proof {
            assert(names_view(self.pending@)[n - 1] == self.pending@[n - 1]@);
            assert(names_view(self.pending@)[n - 2] == self.pending@[n - 2]@);
            assert(names_view(self.pending@)[n - 3] == self.pending@[n - 3]@);
        }
        let target = self.pending.pop().unwrap();
        let origin = self.pending.pop().unwrap();
        proof {
            assert(names_view(self.pending@) =~= before.pending.take(n - 2));
            assert(target@ == before.pending[n - 1]);
            assert(origin@ == before.pending[n - 2]);
            assert(self.pending[n - 3]@ == before.pending[n - 3]);
        }
        match self.table.index_of(&self.pending[n - 3].text) {
            None => {
                let e = ParserError::UndefinedIdentifier(
                    self.pending[n - 3].pos.clone(),
                    self.pending[n - 3].text.clone(),
                );
                self.note(e);
            },
            Some(i) => {
                self.note_clashes(i, &origin, &target);
                let t = Transition {
                    pos: origin.pos,
                    origin: origin.text,
                    target: target.text,
                    mode: self.mode,
                };
                self.table.objects[i].transitions.push(t);
                self.contexts.pop();
                self.mode = WritingBehaviour::WriteAfter;
                proof {
                    let o = before.objects[i as int];
                    assert(transitions_view(self.table.objects[i as int].transitions@)
                        =~= o.transitions.push(t@));
                    assert(objects_view(self.table.objects@) =~= before.objects.update(
                        i as int,
                        ObjectView { transitions: o.transitions.push(t@), ..o },
                    ));
                }
            },
        }
    }

    /// `;` at `pos`.
    fn terminate(&mut self, pos: Pos)
        ensures
            final(self)@ == terminate(old(self)@, pos@),
    {
        if self.current() == Context::TransitionBody {
            self.finish_transition(pos);
        } else if self.pending.len() == 0 {
            self.note(ParserError::UnexpectedEndOfStatement(pos));
        } else {
            self.pending.pop();
            proof {
                assert(names_view(self.pending@) =~= old(self)@.pending.drop_last());
            }
        }
    }

    /// Takes one element of the scanner's output.
    pub fn feed(&mut self, item: Result<Token, ScannerError>)
        ensures
            final(self)@ == feed(old(self)@, item_view(item)),
    {
        match item {
            Err(e) => {
                if self.verbose {
                    self.note(ParserError::Lexical(e));
                }
            },
            Ok(Token::Comment(_, _)) => {},
            Ok(Token::OpenGroup(p)) => self.declare(p, TokenKind::OpenGroup, Context::GroupBody),
            Ok(Token::CloseGroup(p)) => self.close(p, Context::GroupBody),
            Ok(Token::OpenBlock(p)) => self.declare(p, TokenKind::OpenBlock, Context::BlockBody),
            Ok(Token::CloseBlock(p)) => self.close(p, Context::BlockBody),
            Ok(Token::Identifier(p, s)) => self.name(p, s),
            Ok(Token::Literal(p, s)) => self.value(p, s),
            Ok(Token::Equals(_)) => {
                self.contexts.push(Context::TransitionBody);
            },
            Ok(Token::Star(p)) => self.flag(p, TokenKind::Star, Attribute::EntryPoint),
            Ok(Token::Colon(p)) => self.flag(p, TokenKind::Colon, Attribute::EndPoint),
            Ok(Token::Caret(p)) => self.select(p, TokenKind::Caret, WritingBehaviour::NoWrite),
            Ok(Token::Percent(p)) => self.select(
                p,
                TokenKind::Percent,
                WritingBehaviour::WriteBefore,
            ),
            Ok(Token::At(p)) => self.name(p, sign_of(TokenKind::At)),
            Ok(Token::Dot(p)) => self.dot(p),
            Ok(Token::Pipe(p)) => self.note(
                ParserError::ReservedTokenUnused(p, sign_of(TokenKind::Pipe)),
            ),
            Ok(Token::Semicolon(p)) => self.terminate(p),
        }
    }

    /// The table at the end of the input: every name that still waits is
    /// recorded as an error, the latest first.
    pub fn finish(self) -> (table: Symbols)
        ensures
            table@ == finish(self@),
    {
        let ghost before = self@;
        let mut b = self;
        let ghost total = b.pending.len() as int;
        proof {
            assert(before.errors + unclosed(before.pending).take(0) =~= before.errors);
        }
        while b.pending.len() > 0
            invariant
                b.pending.len() <= total,
                total == before.pending.len(),
                names_view(b.pending@) == before.pending.take(b.pending.len() as int),
                objects_view(b.table.objects@) == before.objects,
                values_view(b.table.values@) == before.values,
                errors_view(b.table.errors@) == before.errors + unclosed(before.pending).take(
                    total - b.pending.len(),
                ),
            decreases b.pending.len(),
        {
            let ghost left = b.pending.len() as int;
            let ghost done = errors_view(b.table.errors@);
            proof {
                assert(names_view(b.pending@)[left - 1] == b.pending@[left - 1]@);
            }
            let n = b.pending.pop().unwrap();
            let e = ParserError::Unclosed(n.pos, n.text);
            b.table.errors.push(e);
            proof {
                assert(n@ == before.pending[left - 1]);
                assert(names_view(b.pending@) =~= before.pending.take(left - 1));
                assert(errors_view(b.table.errors@) =~= done.push(e@));
                assert(unclosed(before.pending).take(total - left + 1) =~= unclosed(
                    before.pending,
                ).take(total - left).push(e@));
                assert(done.push(e@) =~= before.errors + unclosed(before.pending).take(
                    total - left + 1,
                ));
            }
        }
        proof {
            assert(unclosed(before.pending).take(total) =~= unclosed(before.pending));
        }
        b.table
    }
}

} // verus!
