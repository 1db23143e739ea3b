//! The rules of the builder: what each token does to the state that the
//! builder carries from one token to the next.

use vstd::prelude::*;
use crate::kinds::{Attribute, Context, StateTypes, WritingBehaviour};
use crate::parser::{ObjectView, ParserErrorView, SymbolsView, TransitionView};
use crate::scanner::{ItemView, PosView, TokenKind};

verus! {

/// A name that waits to be used, with the position of its token.
pub struct NameView {
    pub pos: PosView,
    pub text: Seq<char>,
}

/// The state of the builder.
pub struct BuilderView {
    /// The objects declared so far.
    pub objects: Seq<ObjectView>,
    /// The literal values met so far.
    pub values: Seq<(Seq<char>, PosView)>,
    /// The errors recorded so far.
    pub errors: Seq<ParserErrorView>,
    /// The constructs that are open, the innermost last.
    pub contexts: Seq<Context>,
    /// The names that wait to be used, the latest last.
    pub pending: Seq<NameView>,
    /// The write mode chosen for the transition at hand.
    pub mode: WritingBehaviour,
    /// The roles gathered for the next object.
    pub t: StateTypes,
    /// Whether lexical errors are recorded.
    pub verbose: bool,
}

/// The state before the first token.
pub open spec fn start(verbose: bool) -> BuilderView {
    BuilderView {
        objects: Seq::empty(),
        values: Seq::empty(),
        errors: Seq::empty(),
        contexts: Seq::empty(),
        pending: Seq::empty(),
        mode: WritingBehaviour::WriteAfter,
        t: StateTypes { entry: false, end: false },
        verbose,
    }
}

/// The innermost open construct.
pub open spec fn current(b: BuilderView) -> Context {
    if b.contexts.len() == 0 {
        Context::Top
    } else {
        b.contexts.last()
    }
}

/// The index of the first object from index `i` on that is named `name`.
pub open spec fn find_from(objects: Seq<ObjectView>, name: Seq<char>, i: int) -> Option<int>
    decreases objects.len() - i,
{
    if i < 0 || i >= objects.len() {
        None
    } else if objects[i].id == name {
        Some(i)
    } else {
        find_from(objects, name, i + 1)
    }
}

/// The index of the first object that is named `name`.
pub open spec fn find(objects: Seq<ObjectView>, name: Seq<char>) -> Option<int> {
    find_from(objects, name, 0)
}

/// The sign of a token that is a single character; empty for the other
/// kinds.
pub open spec fn sign(kind: TokenKind) -> Seq<char> {
    match kind {
        TokenKind::OpenGroup => seq!['('],
        TokenKind::CloseGroup => seq![')'],
        TokenKind::OpenBlock => seq!['{'],
        TokenKind::CloseBlock => seq!['}'],
        TokenKind::Equals => seq!['='],
        TokenKind::Star => seq!['*'],
        TokenKind::Colon => seq![':'],
        TokenKind::Caret => seq!['^'],
        TokenKind::At => seq!['@'],
        TokenKind::Dot => seq!['.'],
        TokenKind::Pipe => seq!['|'],
        TokenKind::Percent => seq!['%'],
        TokenKind::Semicolon => seq![';'],
        _ => Seq::empty(),
    }
}

/// `b` with one more error.
pub open spec fn note(b: BuilderView, e: ParserErrorView) -> BuilderView {
    BuilderView { errors: b.errors.push(e), ..b }
}

/// An identifier, `@` or `.` in a transition: the name waits.
pub open spec fn name(b: BuilderView, pos: PosView, text: Seq<char>) -> BuilderView {
    BuilderView { pending: b.pending.push(NameView { pos, text }), ..b }
}

/// `(` or `{`, which opens `inner`: the latest name is the object's. It is
/// declared with the roles gathered so far unless an object has the name
/// already, and the roles start anew. Without a name, an error.
pub open spec fn declare(b: BuilderView, pos: PosView, kind: TokenKind, inner: Context)
    -> BuilderView {
    if b.pending.len() == 0 {
        note(b, ParserErrorView::ExpectedIdentifier(pos, sign(kind)))
    } else {
        let n = b.pending.last();
        BuilderView {
            objects: if find(b.objects, n.text) is None {
                b.objects.push(
                    ObjectView {
                        values: Seq::empty(),
                        id: n.text,
                        transitions: Seq::empty(),
                        loc: n.pos,
                        t: b.t,
                    },
                )
            } else {
                b.objects
            },
            t: StateTypes { entry: false, end: false },
            contexts: b.contexts.push(inner),
            ..b
        }
    }
}

/// The error for a `)` or `}` that closes nothing.
pub open spec fn unbalanced(pos: PosView, inner: Context) -> ParserErrorView {
    if inner == Context::GroupBody {
        ParserErrorView::UnbalancedGroup(pos)
    } else {
        ParserErrorView::UnbalancedBlock(pos)
    }
}

/// `)` or `}`, which closes `inner`: the innermost open construct must be
/// `inner`, and is closed. Else an error.
pub open spec fn close(b: BuilderView, pos: PosView, inner: Context) -> BuilderView {
    if current(b) == inner {
        BuilderView { contexts: b.contexts.drop_last(), ..b }
    } else {
        note(b, unbalanced(pos, inner))
    }
}

/// A literal: inside a group it joins the table of values, and its index
/// the values of the object that the latest name names. Outside a group,
/// without a name, or with a name that is no object's, an error.
pub open spec fn value(b: BuilderView, pos: PosView, text: Seq<char>) -> BuilderView {
    if current(b) != Context::GroupBody {
        note(b, ParserErrorView::LiteralOutsideGroup(pos, text))
    } else if b.pending.len() == 0 {
        note(b, ParserErrorView::UnattachedModifier(pos, text))
    } else {
        let n = b.pending.last();
        match find(b.objects, n.text) {
            None => note(b, ParserErrorView::UndefinedIdentifier(n.pos, n.text)),
            Some(i) => {
                let o = b.objects[i];
                BuilderView {
                    values: b.values.push((text, pos)),
                    objects: b.objects.update(
                        i,
                        ObjectView { values: o.values.push(b.values.len()), ..o },
                    ),
                    ..b
                }
            },
        }
    }
}

/// Whether the roles `t` hold `a`.
pub open spec fn holds(t: StateTypes, a: Attribute) -> bool {
    match a {
        Attribute::EntryPoint => t.entry,
        Attribute::EndPoint => t.end,
    }
}

/// The roles `t` and `a`.
pub open spec fn with(t: StateTypes, a: Attribute) -> StateTypes {
    match a {
        Attribute::EntryPoint => StateTypes { entry: true, end: t.end },
        Attribute::EndPoint => StateTypes { entry: t.entry, end: true },
    }
}

/// `*` or `:`, which gives the next object the role `a`. Without a pending
/// name, or where the role is set already, an error.
pub open spec fn flag(b: BuilderView, pos: PosView, kind: TokenKind, a: Attribute)
    -> BuilderView {
    if b.pending.len() == 0 {
        note(b, ParserErrorView::UnattachedModifier(pos, sign(kind)))
    } else if holds(b.t, a) {
        note(b, ParserErrorView::DuplicateAttribute(pos, sign(kind)))
    } else {
        BuilderView { t: with(b.t, a), ..b }
    }
}

/// `^` or `%`, which chooses the write mode `mode` for the transition at
/// hand. Outside a transition, or after another choice, an error.
pub open spec fn select(b: BuilderView, pos: PosView, kind: TokenKind, mode: WritingBehaviour)
    -> BuilderView {
    if current(b) != Context::TransitionBody {
        note(b, ParserErrorView::UnattachedModifier(pos, sign(kind)))
    } else if b.mode != WritingBehaviour::WriteAfter {
        note(b, ParserErrorView::DuplicateWriteMode(pos, sign(kind)))
    } else {
        BuilderView { mode, ..b }
    }
}

/// `.`: inside a transition, the name `.` waits. Elsewhere, an error.
pub open spec fn dot(b: BuilderView, pos: PosView) -> BuilderView {
    if current(b) == Context::TransitionBody {
        name(b, pos, sign(TokenKind::Dot))
    } else {
        note(b, ParserErrorView::UnattachedModifier(pos, sign(TokenKind::Dot)))
    }
}

/// One error for each transition of `ts` that has the origin of `new`, in
/// the order of `ts`.
pub open spec fn clashes(ts: Seq<TransitionView>, new: TransitionView) -> Seq<ParserErrorView>
    decreases ts.len(),
{
    if ts.len() == 0 {
        Seq::empty()
    } else if ts.last().origin == new.origin {
        clashes(ts.drop_last(), new).push(
            ParserErrorView::DuplicateTransition(new.pos, new.origin, new.target, ts.last().pos),
        )
    } else {
        clashes(ts.drop_last(), new)
    }
}

/// `;` inside a transition: the two latest names are its target and, below
/// it, its origin; both leave. The name below them is the object that the
/// transition joins, with the write mode chosen; the transition is then
/// closed and the write mode back to its default. A transition whose origin
/// the object has already is recorded as an error for each earlier one, and
/// joins all the same. Where the name below is no object's, or where fewer
/// than three names wait, an error, and the transition stays open.
pub open spec fn finish_transition(b: BuilderView, pos: PosView) -> BuilderView {
    let n = b.pending.len() as int;
    if n < 3 {
        BuilderView {
            pending: b.pending.take(if n >= 2 { n - 2 } else { 0 }),
            errors: b.errors.push(ParserErrorView::UnexpectedEndOfStatement(pos)),
            ..b
        }
    } else {
        let target = b.pending[n - 1];
        let origin = b.pending[n - 2];
        let owner = b.pending[n - 3];
        let pending = b.pending.take(n - 2);
        match find(b.objects, owner.text) {
            None => BuilderView {
                pending,
                errors: b.errors.push(ParserErrorView::UndefinedIdentifier(owner.pos, owner.text)),
                ..b
            },
            Some(i) => {
                let o = b.objects[i];
                let new = TransitionView {
                    pos: origin.pos,
                    origin: origin.text,
                    target: target.text,
                    mode: b.mode,
                };
                BuilderView {
                    pending,
                    errors: b.errors + clashes(o.transitions, new),
                    objects: b.objects.update(
                        i,
                        ObjectView { transitions: o.transitions.push(new), ..o },
                    ),
                    contexts: b.contexts.drop_last(),
                    mode: WritingBehaviour::WriteAfter,
                    ..b
                }
            },
        }
    }
}

/// `;`: inside a transition it ends the transition. Elsewhere it ends a
/// statement: the latest name leaves; where none waits, an error.
pub open spec fn terminate(b: BuilderView, pos: PosView) -> BuilderView {
    if current(b) == Context::TransitionBody {
        finish_transition(b, pos)
    } else if b.pending.len() == 0 {
        note(b, ParserErrorView::UnexpectedEndOfStatement(pos))
    } else {
        BuilderView { pending: b.pending.drop_last(), ..b }
    }
}

/// What one element of the scanner's output does to the state.
pub open spec fn feed(b: BuilderView, item: ItemView) -> BuilderView {
    match item {
        Err(e) => if b.verbose {
            note(b, ParserErrorView::Lexical(e))
        } else {
            b
        },
        Ok(t) => match t.kind {
            TokenKind::Comment => b,
            TokenKind::OpenGroup => declare(b, t.pos, t.kind, Context::GroupBody),
            TokenKind::CloseGroup => close(b, t.pos, Context::GroupBody),
            TokenKind::OpenBlock => declare(b, t.pos, t.kind, Context::BlockBody),
            TokenKind::CloseBlock => close(b, t.pos, Context::BlockBody),
            TokenKind::Identifier => name(b, t.pos, t.text),
            TokenKind::Literal => value(b, t.pos, t.text),
            TokenKind::Equals => BuilderView {
                contexts: b.contexts.push(Context::TransitionBody),
                ..b
            },
            TokenKind::Star => flag(b, t.pos, t.kind, Attribute::EntryPoint),
            TokenKind::Colon => flag(b, t.pos, t.kind, Attribute::EndPoint),
            TokenKind::Caret => select(b, t.pos, t.kind, WritingBehaviour::NoWrite),
            TokenKind::Percent => select(b, t.pos, t.kind, WritingBehaviour::WriteBefore),
            TokenKind::At => name(b, t.pos, sign(t.kind)),
            TokenKind::Dot => dot(b, t.pos),
            TokenKind::Pipe => note(b, ParserErrorView::ReservedTokenUnused(t.pos, sign(t.kind))),
            TokenKind::Semicolon => terminate(b, t.pos),
        },
    }
}

/// The state after the elements `items`, from the state `b`.
pub open spec fn feed_all(b: BuilderView, items: Seq<ItemView>) -> BuilderView
    decreases items.len(),
{
    if items.len() == 0 {
        b
    } else {
        feed(feed_all(b, items.drop_last()), items.last())
    }
}

/// One error for each name that still waits, the latest first.
pub open spec fn unclosed(pending: Seq<NameView>) -> Seq<ParserErrorView> {
    Seq::new(
        pending.len(),
        |i: int|
            ParserErrorView::Unclosed(
                pending[pending.len() - 1 - i].pos,
                pending[pending.len() - 1 - i].text,
            ),
    )
}

/// The table at the end of the input.
pub open spec fn finish(b: BuilderView) -> SymbolsView {
    SymbolsView { objects: b.objects, values: b.values, errors: b.errors + unclosed(b.pending) }
}

/// The table of a whole sequence of elements.
pub open spec fn run(items: Seq<ItemView>, verbose: bool) -> SymbolsView {
    finish(feed_all(start(verbose), items))
}

/// To take a sequence of elements is to take the first and then the rest.
pub proof fn lemma_feed_all_first(b: BuilderView, items: Seq<ItemView>)
    requires
        items.len() > 0,
    ensures
        feed_all(b, items) == feed_all(feed(b, items[0]), items.drop_first()),
    decreases items.len(),
{
    if items.len() == 1 {
        assert(items.drop_last() =~= Seq::empty());
        assert(items.drop_first() =~= Seq::empty());
        assert(feed_all(b, items.drop_last()) == b);
    } else {
        lemma_feed_all_first(b, items.drop_last());
        assert(items.drop_last().drop_first() =~= items.drop_first().drop_last());
        assert(items.drop_last()[0] == items[0]);
        assert(items.drop_first().last() == items.last());
    }
}

} // verus!
