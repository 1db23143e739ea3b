//! Whole statements: what a well-formed statement does to the state, and that
//! it leaves the two stacks as it found them.

use vstd::prelude::*;
use crate::kinds::{Context, StateTypes, WritingBehaviour};
use crate::laws::{grown, lemma_feed_all_concat, lemma_find_from};
use crate::parser::{ObjectView, TransitionView};
use crate::rules::{
    clashes, current, feed, feed_all, find, find_from, sign, BuilderView, NameView,
};
use crate::scanner::{ItemView, PosView, TokenKind, TokenView};

verus! {

/// Whether a token can stand for a name: an identifier, `@` or `.`.
pub open spec fn names(t: TokenView) -> bool {
    t.kind == TokenKind::Identifier || t.kind == TokenKind::At || t.kind == TokenKind::Dot
}

/// The name that a token stands for.
pub open spec fn name_of(t: TokenView) -> NameView {
    NameView {
        pos: t.pos,
        text: if t.kind == TokenKind::Identifier {
            t.text
        } else {
            sign(t.kind)
        },
    }
}

/// The token as an element of the scanner's output.
pub open spec fn ok(t: TokenView) -> ItemView {
    Ok(t)
}

/// The tokens as elements of the scanner's output.
pub open spec fn oks(ts: Seq<TokenView>) -> Seq<ItemView> {
    Seq::new(ts.len(), |k: int| Ok(ts[k]))
}

/// A search is not changed where an object is replaced by one of its name.
pub proof fn lemma_find_after_update(
    objects: Seq<ObjectView>,
    at: int,
    o: ObjectView,
    name: Seq<char>,
    i: int,
)
    requires
        0 <= at < objects.len(),
        o.id == objects[at].id,
        0 <= i,
    ensures
        find_from(objects.update(at, o), name, i) == find_from(objects, name, i),
    decreases objects.len() - i,
{
    if i < objects.len() {
        lemma_find_after_update(objects, at, o, name, i + 1);
    }
}

/// A search that found nothing finds the object that is added under the
/// name, and any other search is not changed by it.
pub proof fn lemma_find_after_push(objects: Seq<ObjectView>, o: ObjectView, name: Seq<char>, i: int)
    requires
        0 <= i <= objects.len(),
    ensures
        find_from(objects.push(o), name, i) == match find_from(objects, name, i) {
            Some(r) => Some(r),
            None => if o.id == name {
                Some(objects.len() as int)
            } else {
                None
            },
        },
    decreases objects.len() - i,
{
    if i < objects.len() {
        lemma_find_after_push(objects, o, name, i + 1);
    } else {
        reveal_with_fuel(find_from, 2);
    }
}

/// The transition that the statement `origin = target ;` declares, with an
/// optional sign for the write mode behind the `=`.
pub open spec fn declared(
    b: BuilderView,
    origin: TokenView,
    mark: Option<TokenView>,
    target: TokenView,
) -> TransitionView {
    TransitionView {
        pos: origin.pos,
        origin: name_of(origin).text,
        target: name_of(target).text,
        mode: match mark {
            None => b.mode,
            Some(m) => if m.kind == TokenKind::Caret {
                WritingBehaviour::NoWrite
            } else {
                WritingBehaviour::WriteBefore
            },
        },
    }
}

/// The state after the statement `origin = target ;`, with an optional sign
/// for the write mode behind the `=`.
pub open spec fn after_transition(
    b: BuilderView,
    origin: TokenView,
    equals: TokenView,
    mark: Option<TokenView>,
    target: TokenView,
    end: TokenView,
) -> BuilderView {
    let opened = feed(feed(b, Ok(origin)), Ok(equals));
    let marked = match mark {
        None => opened,
        Some(m) => feed(opened, Ok(m)),
    };
    feed(feed(marked, Ok(target)), Ok(end))
}

/// A transition statement inside an object: the transition joins the object
/// that the latest name names, with one error for each earlier transition
/// from its origin, and the statement leaves the names that wait and the
/// open constructs as it found them, and the write mode at its default.
pub proof fn lemma_transition_statement(
    b: BuilderView,
    origin: TokenView,
    equals: TokenView,
    mark: Option<TokenView>,
    target: TokenView,
    end: TokenView,
)
    requires
        origin.kind == TokenKind::Identifier || origin.kind == TokenKind::At,
        equals.kind == TokenKind::Equals,
        mark matches Some(m) ==> (m.kind == TokenKind::Caret || m.kind == TokenKind::Percent)
            && b.mode == WritingBehaviour::WriteAfter,
        names(target),
        end.kind == TokenKind::Semicolon,
        b.pending.len() > 0,
        find(b.objects, b.pending.last().text) is Some,
    ensures
        ({
            let a = after_transition(b, origin, equals, mark, target, end);
            let i = find(b.objects, b.pending.last().text)->0;
            let o = b.objects[i];
            let new = declared(b, origin, mark, target);
            &&& a.pending == b.pending
            &&& a.contexts == b.contexts
            &&& a.mode == WritingBehaviour::WriteAfter
            &&& a.t == b.t
            &&& a.values == b.values
            &&& a.errors == b.errors + clashes(o.transitions, new)
            &&& a.objects == b.objects.update(
                i,
                ObjectView { transitions: o.transitions.push(new), ..o },
            )
        }),
{
    let named = feed(b, Ok(origin));
    let opened = feed(named, Ok(equals));
    let marked = match mark {
        None => opened,
        Some(m) => feed(opened, Ok(m)),
    };
    let full = feed(marked, Ok(target));
    let a = feed(full, Ok(end));
    assert(current(opened) == Context::TransitionBody);
    assert(marked.pending == b.pending.push(name_of(origin)));
    assert(marked.contexts == b.contexts.push(Context::TransitionBody));
    assert(current(marked) == Context::TransitionBody);
    assert(full.pending == b.pending.push(name_of(origin)).push(name_of(target)));
    let n = full.pending.len() as int;
    assert(full.pending[n - 1] == name_of(target));
    assert(full.pending[n - 2] == name_of(origin));
    assert(full.pending[n - 3] == b.pending.last());
    assert(full.pending.take(n - 2) =~= b.pending);
    assert(full.contexts.drop_last() =~= b.contexts);
    assert(current(full) == Context::TransitionBody);
}

/// The values that the literals `lits` add to a table.
pub open spec fn values_of(lits: Seq<TokenView>) -> Seq<(Seq<char>, PosView)> {
    Seq::new(lits.len(), |k: int| (lits[k].text, lits[k].pos))
}

/// The `n` indices from `first` on.
pub open spec fn indices_from(first: nat, n: nat) -> Seq<nat> {
    Seq::new(n, |k: int| (first + k) as nat)
}

/// Whether `a` is `b` with the literals `lits` added to the table of values
/// and to the values of the object at index `i`, and nothing else changed.
pub open spec fn with_literals(b: BuilderView, i: int, lits: Seq<TokenView>, a: BuilderView)
    -> bool {
    let o = b.objects[i];
    a == (BuilderView {
        values: b.values + values_of(lits),
        objects: b.objects.update(
            i,
            ObjectView { values: o.values + indices_from(b.values.len(), lits.len()), ..o },
        ),
        ..b
    })
}

/// Literals inside the group of an object: each joins the table of values
/// and, by its index, the object; nothing else changes.
pub proof fn lemma_literals(b: BuilderView, lits: Seq<TokenView>)
    requires
        current(b) == Context::GroupBody,
        b.pending.len() > 0,
        find(b.objects, b.pending.last().text) is Some,
        forall|k: int| 0 <= k < lits.len() ==> (#[trigger] lits[k]).kind == TokenKind::Literal,
    ensures
        with_literals(b, find(b.objects, b.pending.last().text)->0, lits, feed_all(b, oks(lits))),
    decreases lits.len(),
{
    let name = b.pending.last().text;
    lemma_find_from(b.objects, name, 0);
    let i = find(b.objects, name)->0;
    let o = b.objects[i];
    if lits.len() == 0 {
        assert(b.values + values_of(lits) =~= b.values);
        assert(o.values + indices_from(b.values.len(), 0) =~= o.values);
        assert(b.objects.update(i, o) =~= b.objects);
    } else {
        let init = lits.drop_last();
        let last = lits.last();
        lemma_literals(b, init);
        assert(oks(lits).drop_last() =~= oks(init));
        assert(oks(lits).last() == ok(last));
        let mid = feed_all(b, oks(init));
        let a = feed(mid, Ok(last));
        let grown = ObjectView {
            values: o.values + indices_from(b.values.len(), init.len()),
            ..o
        };
        lemma_find_after_update(b.objects, i, grown, name, 0);
        assert(find(mid.objects, name) == Some(i));
        assert(mid.objects[i] == grown);
        assert(a.values =~= b.values + values_of(lits));
        assert(grown.values.push(mid.values.len()) =~= o.values + indices_from(
            b.values.len(),
            lits.len(),
        ));
        assert(a.objects =~= b.objects.update(
            i,
            ObjectView { values: o.values + indices_from(b.values.len(), lits.len()), ..o },
        ));
    }
}

/// The elements of the statement `id ( lits ) ;`.
pub open spec fn group_statement(
    id: TokenView,
    open: TokenView,
    lits: Seq<TokenView>,
    close: TokenView,
    end: TokenView,
) -> Seq<ItemView> {
    seq![Ok(id), Ok(open)] + oks(lits) + seq![Ok(close), Ok(end)]
}

/// The objects after the declaration of `n` with the roles `t`: as they
/// were where an object has the name, else with a new one behind them.
pub open spec fn declared_objects(objects: Seq<ObjectView>, n: NameView, t: StateTypes) -> Seq<
    ObjectView,
> {
    if find(objects, n.text) is None {
        objects.push(
            ObjectView {
                values: Seq::empty(),
                id: n.text,
                transitions: Seq::empty(),
                loc: n.pos,
                t,
            },
        )
    } else {
        objects
    }
}

/// The index of the object named `name` after its declaration.
pub open spec fn declared_at(objects: Seq<ObjectView>, name: Seq<char>) -> int {
    match find(objects, name) {
        Some(i) => i,
        None => objects.len() as int,
    }
}

/// A group statement outside a transition: the object is declared where it
/// was not, the literals join the table of values and the object, no error
/// is recorded, the roles start anew, and the statement leaves the names
/// that wait and the open constructs as it found them.
pub proof fn lemma_group_statement(
    b: BuilderView,
    id: TokenView,
    open: TokenView,
    lits: Seq<TokenView>,
    close: TokenView,
    end: TokenView,
)
    requires
        id.kind == TokenKind::Identifier || id.kind == TokenKind::At,
        open.kind == TokenKind::OpenGroup,
        forall|k: int| 0 <= k < lits.len() ==> (#[trigger] lits[k]).kind == TokenKind::Literal,
        close.kind == TokenKind::CloseGroup,
        end.kind == TokenKind::Semicolon,
        current(b) != Context::TransitionBody,
    ensures
        ({
            let a = feed_all(b, group_statement(id, open, lits, close, end));
            let objects = declared_objects(b.objects, name_of(id), b.t);
            let i = declared_at(b.objects, name_of(id).text);
            &&& a.pending == b.pending
            &&& a.contexts == b.contexts
            &&& a.errors == b.errors
            &&& a.mode == b.mode
            &&& a.t == StateTypes { entry: false, end: false }
            &&& a.values == b.values + values_of(lits)
            &&& a.objects == objects.update(
                i,
                ObjectView {
                    values: objects[i].values + indices_from(b.values.len(), lits.len()),
                    ..objects[i]
                },
            )
        }),
{
    let n = name_of(id);
    let head = seq![ok(id), Ok(open)];
    let tail = seq![ok(close), Ok(end)];
    let named = feed(b, Ok(id));
    let opened = feed(named, Ok(open));
    assert(feed_all(b, head) == opened) by {
        reveal_with_fuel(feed_all, 3);
        assert(head.drop_last() =~= seq![ok(id)]);
        assert(head.drop_last().drop_last() =~= Seq::empty());
    }
    assert(named.pending.last() == n);
    lemma_find_from(b.objects, n.text, 0);
    let objects = declared_objects(b.objects, n, b.t);
    let i = declared_at(b.objects, n.text);
    assert(opened.objects == objects);
    assert(find(objects, n.text) == Some(i)) by {
        if find(b.objects, n.text) is None {
            lemma_find_after_push(b.objects, objects.last(), n.text, 0);
        }
    }
    assert(opened.pending == b.pending.push(n));
    assert(opened.contexts == b.contexts.push(Context::GroupBody));
    lemma_literals(opened, lits);
    let filled = feed_all(opened, oks(lits));
    lemma_feed_all_concat(b, head, oks(lits));
    let closed = feed(filled, Ok(close));
    let a = feed(closed, Ok(end));
    assert(feed_all(filled, tail) == a) by {
        reveal_with_fuel(feed_all, 3);
        assert(tail.drop_last() =~= seq![ok(close)]);
        assert(tail.drop_last().drop_last() =~= Seq::empty());
    }
    lemma_feed_all_concat(b, head + oks(lits), tail);
    assert(current(filled) == Context::GroupBody);
    assert(closed.contexts =~= b.contexts);
    assert(current(closed) == current(b));
    assert(a.pending =~= b.pending);
}

/// One transition statement: `origin = target ;`, with an optional sign for
/// the write mode behind the `=`.
pub struct Arc {
    pub origin: TokenView,
    pub equals: TokenView,
    pub mark: Option<TokenView>,
    pub target: TokenView,
    pub end: TokenView,
}

/// Whether the tokens of `a` are of the kinds that make a transition
/// statement.
pub open spec fn arc_formed(a: Arc) -> bool {
    &&& a.origin.kind == TokenKind::Identifier || a.origin.kind == TokenKind::At
    &&& a.equals.kind == TokenKind::Equals
    &&& a.mark matches Some(m) ==> m.kind == TokenKind::Caret || m.kind == TokenKind::Percent
    &&& names(a.target)
    &&& a.end.kind == TokenKind::Semicolon
}

/// The elements of one transition statement.
pub open spec fn arc_items(a: Arc) -> Seq<ItemView> {
    seq![Ok(a.origin), Ok(a.equals)] + match a.mark {
        Some(m) => seq![Ok(m)],
        None => Seq::empty(),
    } + seq![Ok(a.target), Ok(a.end)]
}

/// The elements of the transition statements `arcs`, one after the other.
pub open spec fn arcs_items(arcs: Seq<Arc>) -> Seq<ItemView>
    decreases arcs.len(),
{
    if arcs.len() == 0 {
        Seq::empty()
    } else {
        arcs_items(arcs.drop_last()) + arc_items(arcs.last())
    }
}

/// The transition that `a` declares where no write mode was chosen before
/// it.
pub open spec fn arc_transition(a: Arc) -> TransitionView {
    TransitionView {
        pos: a.origin.pos,
        origin: name_of(a.origin).text,
        target: name_of(a.target).text,
        mode: match a.mark {
            None => WritingBehaviour::WriteAfter,
            Some(m) => if m.kind == TokenKind::Caret {
                WritingBehaviour::NoWrite
            } else {
                WritingBehaviour::WriteBefore
            },
        },
    }
}

/// The transitions that `arcs` declare, in order.
pub open spec fn arcs_transitions(arcs: Seq<Arc>) -> Seq<TransitionView> {
    Seq::new(arcs.len(), |k: int| arc_transition(arcs[k]))
}

/// To take the elements of a transition statement is to take its tokens one
/// by one.
pub proof fn lemma_arc_items(b: BuilderView, a: Arc)
    ensures
        feed_all(b, arc_items(a)) == after_transition(
            b,
            a.origin,
            a.equals,
            a.mark,
            a.target,
            a.end,
        ),
{
    let head = seq![ok(a.origin), Ok(a.equals)];
    let tail = seq![ok(a.target), Ok(a.end)];
    let opened = feed(feed(b, Ok(a.origin)), Ok(a.equals));
    assert(feed_all(b, head) == opened) by {
        reveal_with_fuel(feed_all, 3);
        assert(head.drop_last() =~= seq![
            ok(a.origin),
        ]);
        assert(head.drop_last().drop_last() =~= Seq::empty());
    }
    let middle: Seq<ItemView> = match a.mark {
        Some(m) => seq![Ok(m)],
        None => Seq::empty(),
    };
    let marked = match a.mark {
        None => opened,
        Some(m) => feed(opened, Ok(m)),
    };
    assert(feed_all(opened, middle) == marked) by {
        reveal_with_fuel(feed_all, 2);
        if a.mark is Some {
            assert(middle.drop_last() =~= Seq::empty());
        }
    }
    assert(feed_all(marked, tail) == feed(feed(marked, Ok(a.target)), Ok(a.end))) by {
        reveal_with_fuel(feed_all, 3);
        assert(tail.drop_last() =~= seq![
            ok(a.target),
        ]);
        assert(tail.drop_last().drop_last() =~= Seq::empty());
    }
    lemma_feed_all_concat(b, head, middle);
    lemma_feed_all_concat(b, head + middle, tail);
}

/// Transition statements inside an object: each transition joins the object
/// that the latest name names, in order; no value is added, no other object
/// changed, no error removed; and the statements leave the names that wait
/// and the open constructs as they found them, and the write mode at its
/// default.
pub proof fn lemma_transition_statements(b: BuilderView, arcs: Seq<Arc>)
    requires
        b.pending.len() > 0,
        find(b.objects, b.pending.last().text) is Some,
        b.mode == WritingBehaviour::WriteAfter,
        forall|k: int| 0 <= k < arcs.len() ==> arc_formed(#[trigger] arcs[k]),
    ensures
        ({
            let a = feed_all(b, arcs_items(arcs));
            let i = find(b.objects, b.pending.last().text)->0;
            let o = b.objects[i];
            &&& a.pending == b.pending
            &&& a.contexts == b.contexts
            &&& a.mode == WritingBehaviour::WriteAfter
            &&& a.t == b.t
            &&& a.values == b.values
            &&& grown(b.errors, a.errors)
            &&& a.objects == b.objects.update(
                i,
                ObjectView { transitions: o.transitions + arcs_transitions(arcs), ..o },
            )
        }),
    decreases arcs.len(),
{
    let name = b.pending.last().text;
    lemma_find_from(b.objects, name, 0);
    let i = find(b.objects, name)->0;
    let o = b.objects[i];
    if arcs.len() == 0 {
        assert(o.transitions + arcs_transitions(arcs) =~= o.transitions);
        assert(b.objects.update(i, o) =~= b.objects);
    } else {
        let init = arcs.drop_last();
        let last = arcs.last();
        lemma_transition_statements(b, init);
        let mid = feed_all(b, arcs_items(init));
        let held = ObjectView { transitions: o.transitions + arcs_transitions(init), ..o };
        lemma_find_after_update(b.objects, i, held, name, 0);
        assert(mid.objects[i] == held);
        lemma_feed_all_concat(b, arcs_items(init), arc_items(last));
        lemma_arc_items(mid, last);
        assert(arc_formed(last));
        lemma_transition_statement(mid, last.origin, last.equals, last.mark, last.target, last.end);
        let a = feed_all(b, arcs_items(arcs));
        assert(declared(mid, last.origin, last.mark, last.target) == arc_transition(last));
        assert(held.transitions.push(arc_transition(last)) =~= o.transitions + arcs_transitions(
            arcs,
        ));
        assert(a.objects =~= b.objects.update(
            i,
            ObjectView { transitions: o.transitions + arcs_transitions(arcs), ..o },
        ));
    }
}

/// The elements of the statement `id { arcs } ;`.
pub open spec fn block_statement(
    id: TokenView,
    open: TokenView,
    arcs: Seq<Arc>,
    close: TokenView,
    end: TokenView,
) -> Seq<ItemView> {
    seq![Ok(id), Ok(open)] + arcs_items(arcs) + seq![Ok(close), Ok(end)]
}

/// A block statement outside a transition: the object is declared where it
/// was not, the transitions join it in order, no value is added, no error
/// removed, the roles start anew, and the statement leaves the names that
/// wait and the open constructs as it found them.
pub proof fn lemma_block_statement(
    b: BuilderView,
    id: TokenView,
    open: TokenView,
    arcs: Seq<Arc>,
    close: TokenView,
    end: TokenView,
)
    requires
        id.kind == TokenKind::Identifier || id.kind == TokenKind::At,
        open.kind == TokenKind::OpenBlock,
        forall|k: int| 0 <= k < arcs.len() ==> arc_formed(#[trigger] arcs[k]),
        close.kind == TokenKind::CloseBlock,
        end.kind == TokenKind::Semicolon,
        current(b) != Context::TransitionBody,
        b.mode == WritingBehaviour::WriteAfter,
    ensures
        ({
            let a = feed_all(b, block_statement(id, open, arcs, close, end));
            let objects = declared_objects(b.objects, name_of(id), b.t);
            let i = declared_at(b.objects, name_of(id).text);
            &&& a.pending == b.pending
            &&& a.contexts == b.contexts
            &&& a.mode == WritingBehaviour::WriteAfter
            &&& a.t == StateTypes { entry: false, end: false }
            &&& a.values == b.values
            &&& grown(b.errors, a.errors)
            &&& a.objects == objects.update(
                i,
                ObjectView {
                    transitions: objects[i].transitions + arcs_transitions(arcs),
                    ..objects[i]
                },
            )
        }),
{
    let n = name_of(id);
    let head = seq![ok(id), Ok(open)];
    let tail = seq![ok(close), Ok(end)];
    let named = feed(b, Ok(id));
    let opened = feed(named, Ok(open));
    assert(feed_all(b, head) == opened) by {
        reveal_with_fuel(feed_all, 3);
        assert(head.drop_last() =~= seq![ok(id)]);
        assert(head.drop_last().drop_last() =~= Seq::empty());
    }
    assert(named.pending.last() == n);
    lemma_find_from(b.objects, n.text, 0);
    let objects = declared_objects(b.objects, n, b.t);
    let i = declared_at(b.objects, n.text);
    assert(opened.objects == objects);
    assert(find(objects, n.text) == Some(i)) by {
        if find(b.objects, n.text) is None {
            lemma_find_after_push(b.objects, objects.last(), n.text, 0);
        }
    }
    assert(opened.pending == b.pending.push(n));
    assert(opened.contexts == b.contexts.push(Context::BlockBody));
    lemma_transition_statements(opened, arcs);
    let filled = feed_all(opened, arcs_items(arcs));
    lemma_feed_all_concat(b, head, arcs_items(arcs));
    let closed = feed(filled, Ok(close));
    let a = feed(closed, Ok(end));
    assert(feed_all(filled, tail) == a) by {
        reveal_with_fuel(feed_all, 3);
        assert(tail.drop_last() =~= seq![ok(close)]);
        assert(tail.drop_last().drop_last() =~= Seq::empty());
    }
    lemma_feed_all_concat(b, head + arcs_items(arcs), tail);
    assert(current(filled) == Context::BlockBody);
    assert(closed.contexts =~= b.contexts);
    assert(current(closed) == current(b));
    assert(a.pending =~= b.pending);
}

} // verus!
