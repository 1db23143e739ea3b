//! What holds of every table that the builder makes, whatever the input.

use vstd::prelude::*;
use crate::kinds::Context;
use crate::parser::{ObjectView, ParserErrorView, SymbolsView, TransitionView};
use crate::rules::{
    clashes, current, declare, feed, feed_all, find, find_from, finish, finish_transition, run,
    start, unclosed, value, BuilderView,
};
use crate::scanner::{ItemView, PosView, TokenKind};

verus! {

/// No two objects have one name.
pub open spec fn names_unique(objects: Seq<ObjectView>) -> bool {
    forall|i: int, j: int|
        0 <= i < j < objects.len() ==> (#[trigger] objects[i]).id != (#[trigger] objects[j]).id
}

/// Every value that an object holds is an index into a table of `n` values.
pub open spec fn indices_valid(objects: Seq<ObjectView>, n: nat) -> bool {
    forall|i: int, k: int|
        0 <= i < objects.len() && 0 <= k < objects[i].values.len()
            ==> #[trigger] objects[i].values[k] < n
}

/// No index is held twice, be it by two objects or by one.
pub open spec fn held_once(objects: Seq<ObjectView>) -> bool {
    forall|i: int, k: int, j: int, l: int|
        0 <= i < objects.len() && 0 <= k < objects[i].values.len() && 0 <= j < objects.len() && 0
            <= l < objects[j].values.len() && #[trigger] objects[i].values[k]
            == #[trigger] objects[j].values[l] ==> i == j && k == l
}

/// Whether an object holds the index `v`.
pub open spec fn held(objects: Seq<ObjectView>, v: nat) -> bool {
    exists|i: int, k: int|
        0 <= i < objects.len() && 0 <= k < objects[i].values.len()
            && #[trigger] objects[i].values[k] == v
}

/// Every index into a table of `n` values is held by an object.
pub open spec fn all_held(objects: Seq<ObjectView>, n: nat) -> bool {
    forall|v: nat| v < n ==> held(objects, v)
}

/// No two of the transitions have one origin.
pub open spec fn origins_distinct(ts: Seq<TransitionView>) -> bool {
    forall|i: int, j: int|
        0 <= i < j < ts.len() ==> (#[trigger] ts[i]).origin != (#[trigger] ts[j]).origin
}

/// Whether a duplicate transition is among the errors.
pub open spec fn flagged(errors: Seq<ParserErrorView>) -> bool {
    exists|k: int| 0 <= k < errors.len() && #[trigger] errors[k] is DuplicateTransition
}

/// What holds of the objects, the values and the errors of every table:
/// the names are unique; the objects hold the indices of the table of
/// values, each index once; and unless a duplicate transition was recorded,
/// no object has two transitions from one origin.
pub open spec fn sound(
    objects: Seq<ObjectView>,
    values: Seq<(Seq<char>, PosView)>,
    errors: Seq<ParserErrorView>,
) -> bool {
    &&& names_unique(objects)
    &&& indices_valid(objects, values.len())
    &&& held_once(objects)
    &&& all_held(objects, values.len())
    &&& !flagged(errors) ==> forall|i: int|
        0 <= i < objects.len() ==> origins_distinct((#[trigger] objects[i]).transitions)
}

/// What holds of every state of the builder.
pub open spec fn state_sound(b: BuilderView) -> bool {
    sound(b.objects, b.values, b.errors)
}

/// What holds of every table.
pub open spec fn table_sound(t: SymbolsView) -> bool {
    sound(t.objects, t.values, t.errors)
}

/// What a search finds is the first object of the name, and it finds one
/// where there is one.
pub proof fn lemma_find_from(objects: Seq<ObjectView>, name: Seq<char>, i: int)
    requires
        0 <= i,
    ensures
        match find_from(objects, name, i) {
            Some(r) => {
                &&& i <= r < objects.len()
                &&& objects[r].id == name
                &&& forall|j: int| i <= j < r ==> (#[trigger] objects[j]).id != name
            },
            None => forall|j: int| i <= j < objects.len() ==> (#[trigger] objects[j]).id != name,
        },
    decreases objects.len() - i,
{
    if i < objects.len() && objects[i].id != name {
        lemma_find_from(objects, name, i + 1);
    }
}

/// No clash is recorded exactly where no transition has the origin.
pub proof fn lemma_clashes(ts: Seq<TransitionView>, new: TransitionView)
    ensures
        forall|k: int|
            0 <= k < clashes(ts, new).len() ==> #[trigger] clashes(ts, new)[k]
                is DuplicateTransition,
        clashes(ts, new).len() == 0 <==> forall|i: int|
            0 <= i < ts.len() ==> (#[trigger] ts[i]).origin != new.origin,
    decreases ts.len(),
{
    if ts.len() > 0 {
        let init = ts.drop_last();
        lemma_clashes(init, new);
        if clashes(ts, new).len() == 0 {
            assert forall|i: int| 0 <= i < ts.len() implies (#[trigger] ts[i]).origin
                != new.origin by {
                if i < ts.len() - 1 {
                    assert(ts[i] == init[i]);
                }
            }
        }
        if forall|i: int| 0 <= i < ts.len() ==> (#[trigger] ts[i]).origin != new.origin {
            assert forall|i: int| 0 <= i < init.len() implies (#[trigger] init[i]).origin
                != new.origin by {
                assert(init[i] == ts[i]);
            }
            assert(ts.last() == ts[ts.len() - 1]);
        }
    }
}

/// The state before the first token is sound.
pub proof fn lemma_start_sound(verbose: bool)
    ensures
        state_sound(start(verbose)),
{
}

/// Whether `after` is `before` with more behind it.
pub open spec fn grown<A>(before: Seq<A>, after: Seq<A>) -> bool {
    &&& before.len() <= after.len()
    &&& forall|k: int| 0 <= k < before.len() ==> #[trigger] after[k] == before[k]
}

/// A duplicate transition that was recorded stays recorded.
proof fn lemma_flagged_stays(before: Seq<ParserErrorView>, after: Seq<ParserErrorView>)
    requires
        grown(before, after),
        flagged(before),
    ensures
        flagged(after),
{
    let k = choose|k: int| 0 <= k < before.len() && #[trigger] before[k] is DuplicateTransition;
    assert(after[k] is DuplicateTransition);
}

/// A state stays sound where only errors are added.
proof fn lemma_errors_only(b: BuilderView, a: BuilderView)
    requires
        state_sound(b),
        a.objects == b.objects,
        a.values == b.values,
        grown(b.errors, a.errors),
    ensures
        state_sound(a),
{
    if flagged(b.errors) {
        lemma_flagged_stays(b.errors, a.errors);
    }
}

/// A declaration keeps the state sound.
proof fn lemma_declare_sound(
    b: BuilderView,
    pos: PosView,
    kind: TokenKind,
    inner: Context,
)
    requires
        state_sound(b),
    ensures
        state_sound(declare(b, pos, kind, inner)),
{
    let a = declare(b, pos, kind, inner);
    if b.pending.len() == 0 {
        lemma_errors_only(b, a);
    } else {
        let n = b.pending.last();
        lemma_find_from(b.objects, n.text, 0);
        if find(b.objects, n.text) is None {
            let len = b.objects.len() as int;
            assert forall|i: int| 0 <= i < len implies #[trigger] a.objects[i] == b.objects[i] by {}
            assert forall|v: nat| v < a.values.len() implies held(a.objects, v) by {
                assert(held(b.objects, v));
                let (i, k) = choose|i: int, k: int|
                    0 <= i < b.objects.len() && 0 <= k < b.objects[i].values.len()
                        && #[trigger] b.objects[i].values[k] == v;
                assert(a.objects[i].values[k] == v);
            }
            if !flagged(a.errors) {
                assert forall|i: int| 0 <= i < a.objects.len() implies origins_distinct(
                    (#[trigger] a.objects[i]).transitions,
                ) by {
                    if i < len {
                        assert(a.objects[i] == b.objects[i]);
                    }
                }
            }
            assert(names_unique(a.objects)) by {
                assert forall|i: int, j: int| 0 <= i < j < a.objects.len() implies (
                #[trigger] a.objects[i]).id != (#[trigger] a.objects[j]).id by {
                    if j < len {
                        assert(a.objects[i] == b.objects[i]);
                        assert(a.objects[j] == b.objects[j]);
                    } else {
                        assert(a.objects[i] == b.objects[i]);
                    }
                }
            }
            assert(indices_valid(a.objects, a.values.len())) by {
                assert forall|i: int, k: int|
                    0 <= i < a.objects.len() && 0 <= k < a.objects[i].values.len() implies
                    #[trigger] a.objects[i].values[k] < a.values.len() by {
                    assert(a.objects[i] == b.objects[i]);
                    assert(b.objects[i].values[k] < b.values.len());
                }
            }
            assert(held_once(a.objects)) by {
                assert forall|i: int, k: int, j: int, l: int|
                    0 <= i < a.objects.len() && 0 <= k < a.objects[i].values.len() && 0 <= j
                        < a.objects.len() && 0 <= l < a.objects[j].values.len()
                        && #[trigger] a.objects[i].values[k]
                        == #[trigger] a.objects[j].values[l] implies i == j && k == l by {
                    assert(a.objects[i] == b.objects[i]);
                    assert(a.objects[j] == b.objects[j]);
                    assert(b.objects[i].values[k] == b.objects[j].values[l]);
                }
            }
        } else {
            lemma_errors_only(b, a);
        }
    }
}

/// A literal keeps the state sound.
proof fn lemma_value_sound(b: BuilderView, pos: PosView, text: Seq<char>)
    requires
        state_sound(b),
    ensures
        state_sound(value(b, pos, text)),
{
    let a = value(b, pos, text);
    if current(b) == Context::GroupBody && b.pending.len() > 0 && find(
        b.objects,
        b.pending.last().text,
    ) is Some {
        let n = b.pending.last();
        lemma_find_from(b.objects, n.text, 0);
        let at = find(b.objects, n.text)->0;
        let new = b.values.len();
        assert(a.objects.len() == b.objects.len());
        assert forall|i: int| 0 <= i < a.objects.len() implies {
            &&& (#[trigger] a.objects[i]).id == b.objects[i].id
            &&& a.objects[i].transitions == b.objects[i].transitions
            &&& i != at ==> a.objects[i] == b.objects[i]
            &&& i == at ==> a.objects[i].values == b.objects[i].values.push(new)
        } by {}
        assert(names_unique(a.objects)) by {
            assert forall|i: int, j: int| 0 <= i < j < a.objects.len() implies (
            #[trigger] a.objects[i]).id != (#[trigger] a.objects[j]).id by {
                assert(b.objects[i].id != b.objects[j].id);
            }
        }
        assert(indices_valid(a.objects, a.values.len())) by {
            assert forall|i: int, k: int|
                0 <= i < a.objects.len() && 0 <= k < a.objects[i].values.len() implies
                #[trigger] a.objects[i].values[k] < a.values.len() by {
                if k < b.objects[i].values.len() {
                    assert(a.objects[i].values[k] == b.objects[i].values[k]);
                    assert(b.objects[i].values[k] < b.values.len());
                }
            }
        }
        assert(held_once(a.objects)) by {
            assert forall|i: int, k: int, j: int, l: int|
                0 <= i < a.objects.len() && 0 <= k < a.objects[i].values.len() && 0 <= j
                    < a.objects.len() && 0 <= l < a.objects[j].values.len()
                    && #[trigger] a.objects[i].values[k]
                    == #[trigger] a.objects[j].values[l] implies i == j && k == l by {
                let old_k = k < b.objects[i].values.len();
                let old_l = l < b.objects[j].values.len();
                if old_k {
                    assert(a.objects[i].values[k] == b.objects[i].values[k]);
                    assert(b.objects[i].values[k] < new);
                }
                if old_l {
                    assert(a.objects[j].values[l] == b.objects[j].values[l]);
                    assert(b.objects[j].values[l] < new);
                }
            }
        }
        assert(all_held(a.objects, a.values.len())) by {
            assert forall|v: nat| v < a.values.len() implies held(a.objects, v) by {
                if v < new {
                    assert(held(b.objects, v));
                    let (i, k) = choose|i: int, k: int|
                        0 <= i < b.objects.len() && 0 <= k < b.objects[i].values.len()
                            && #[trigger] b.objects[i].values[k] == v;
                    assert(a.objects[i].values[k] == v);
                } else {
                    assert(a.objects[at].values[b.objects[at].values.len() as int] == v);
                }
            }
        }
        if !flagged(a.errors) {
            assert forall|i: int| 0 <= i < a.objects.len() implies origins_distinct(
                (#[trigger] a.objects[i]).transitions,
            ) by {
                assert(origins_distinct(b.objects[i].transitions));
            }
        }
    } else {
        lemma_errors_only(b, a);
    }
}

/// The end of a transition keeps the state sound.
proof fn lemma_finish_transition_sound(b: BuilderView, pos: PosView)
    requires
        state_sound(b),
    ensures
        state_sound(finish_transition(b, pos)),
{
    let a = finish_transition(b, pos);
    let n = b.pending.len() as int;
    if n >= 3 && find(b.objects, b.pending[n - 3].text) is Some {
        let owner = b.pending[n - 3];
        lemma_find_from(b.objects, owner.text, 0);
        let at = find(b.objects, owner.text)->0;
        let o = b.objects[at];
        let new = TransitionView {
            pos: b.pending[n - 2].pos,
            origin: b.pending[n - 2].text,
            target: b.pending[n - 1].text,
            mode: b.mode,
        };
        lemma_clashes(o.transitions, new);
        assert(a.objects.len() == b.objects.len());
        assert forall|i: int| 0 <= i < a.objects.len() implies {
            &&& (#[trigger] a.objects[i]).id == b.objects[i].id
            &&& a.objects[i].values == b.objects[i].values
            &&& i != at ==> a.objects[i] == b.objects[i]
            &&& i == at ==> a.objects[i].transitions == o.transitions.push(new)
        } by {}
        assert(names_unique(a.objects)) by {
            assert forall|i: int, j: int| 0 <= i < j < a.objects.len() implies (
            #[trigger] a.objects[i]).id != (#[trigger] a.objects[j]).id by {
                assert(b.objects[i].id != b.objects[j].id);
            }
        }
        assert(indices_valid(a.objects, a.values.len())) by {
            assert forall|i: int, k: int|
                0 <= i < a.objects.len() && 0 <= k < a.objects[i].values.len() implies
                #[trigger] a.objects[i].values[k] < a.values.len() by {
                assert(b.objects[i].values[k] < b.values.len());
            }
        }
        assert(held_once(a.objects)) by {
            assert forall|i: int, k: int, j: int, l: int|
                0 <= i < a.objects.len() && 0 <= k < a.objects[i].values.len() && 0 <= j
                    < a.objects.len() && 0 <= l < a.objects[j].values.len()
                    && #[trigger] a.objects[i].values[k]
                    == #[trigger] a.objects[j].values[l] implies i == j && k == l by {
                assert(b.objects[i].values[k] == b.objects[j].values[l]);
            }
        }
        assert(all_held(a.objects, a.values.len())) by {
            assert forall|v: nat| v < a.values.len() implies held(a.objects, v) by {
                assert(held(b.objects, v));
                let (i, k) = choose|i: int, k: int|
                    0 <= i < b.objects.len() && 0 <= k < b.objects[i].values.len()
                        && #[trigger] b.objects[i].values[k] == v;
                assert(a.objects[i].values[k] == v);
            }
        }
        assert(grown(b.errors, a.errors));
        if !flagged(a.errors) {
            if flagged(b.errors) {
                lemma_flagged_stays(b.errors, a.errors);
            }
            let found = clashes(o.transitions, new);
            if found.len() > 0 {
                assert(a.errors[b.errors.len() as int] == found[0]);
                assert(found[0] is DuplicateTransition);
            }
            assert forall|i: int| 0 <= i < a.objects.len() implies origins_distinct(
                (#[trigger] a.objects[i]).transitions,
            ) by {
                assert(origins_distinct(b.objects[i].transitions));
                if i == at {
                    let ts = a.objects[i].transitions;
                    assert forall|x: int, y: int| 0 <= x < y < ts.len() implies (
                    #[trigger] ts[x]).origin != (#[trigger] ts[y]).origin by {
                        if y < o.transitions.len() {
                            assert(ts[x] == o.transitions[x]);
                            assert(ts[y] == o.transitions[y]);
                        } else {
                            assert(ts[x] == o.transitions[x]);
                        }
                    }
                }
            }
        }
    } else {
        lemma_errors_only(b, a);
    }
}

/// Every element keeps the state sound.
pub proof fn lemma_feed_sound(b: BuilderView, item: ItemView)
    requires
        state_sound(b),
    ensures
        state_sound(feed(b, item)),
{
    let a = feed(b, item);
    match item {
        Err(e) => lemma_errors_only(b, a),
        Ok(t) => match t.kind {
            TokenKind::OpenGroup => lemma_declare_sound(b, t.pos, t.kind, Context::GroupBody),
            TokenKind::OpenBlock => lemma_declare_sound(b, t.pos, t.kind, Context::BlockBody),
            TokenKind::Literal => lemma_value_sound(b, t.pos, t.text),
            TokenKind::Semicolon => {
                if current(b) == Context::TransitionBody {
                    lemma_finish_transition_sound(b, t.pos);
                } else {
                    lemma_errors_only(b, a);
                }
            },
            _ => lemma_errors_only(b, a),
        },
    }
}

/// Every sequence of elements keeps the state sound.
pub proof fn lemma_feed_all_sound(b: BuilderView, items: Seq<ItemView>)
    requires
        state_sound(b),
    ensures
        state_sound(feed_all(b, items)),
    decreases items.len(),
{
    if items.len() > 0 {
        lemma_feed_all_sound(b, items.drop_last());
        lemma_feed_sound(feed_all(b, items.drop_last()), items.last());
    }
}

/// Every table that the builder makes is sound: the names of its objects are
/// unique, its objects hold the indices of its values, each index once, and
/// unless it reports a duplicate transition, none of its objects has two
/// transitions from one origin.
pub proof fn lemma_table_sound(items: Seq<ItemView>, verbose: bool)
    ensures
        table_sound(run(items, verbose)),
{
    let b = feed_all(start(verbose), items);
    lemma_start_sound(verbose);
    lemma_feed_all_sound(start(verbose), items);
    let t = finish(b);
    if flagged(b.errors) {
        lemma_flagged_stays(b.errors, t.errors);
    }
    if !flagged(t.errors) {
        assert(!flagged(b.errors));
    }
}

/// Whether the object `after` is `before` with, at most, more values and
/// more transitions behind those it had.
pub open spec fn object_grown(before: ObjectView, after: ObjectView) -> bool {
    &&& after.id == before.id
    &&& after.loc == before.loc
    &&& after.t == before.t
    &&& grown(before.values, after.values)
    &&& grown(before.transitions, after.transitions)
}

/// Whether the state `after` holds all that `before` held, in its place:
/// values, errors and objects are only added behind those that were there,
/// and an object that was there keeps its name, its place of declaration and
/// its roles, and has values and transitions only added.
pub open spec fn extends(before: BuilderView, after: BuilderView) -> bool {
    &&& after.verbose == before.verbose
    &&& grown(before.values, after.values)
    &&& grown(before.errors, after.errors)
    &&& before.objects.len() <= after.objects.len()
    &&& forall|i: int|
        0 <= i < before.objects.len() ==> object_grown(
            before.objects[i],
            #[trigger] after.objects[i],
        )
}

/// Nothing that the builder has once recorded is changed or removed by the
/// next element.
pub proof fn lemma_feed_extends(b: BuilderView, item: ItemView)
    ensures
        extends(b, feed(b, item)),
{
    let a = feed(b, item);
    match item {
        Err(e) => {},
        Ok(t) => match t.kind {
            TokenKind::Literal => {
                if b.pending.len() > 0 {
                    lemma_find_from(b.objects, b.pending.last().text, 0);
                }
            },
            TokenKind::Semicolon => {
                let n = b.pending.len() as int;
                if n >= 3 {
                    lemma_find_from(b.objects, b.pending[n - 3].text, 0);
                }
            },
            _ => {},
        },
    }
}

/// What holds all of a state that holds all of another holds all of that
/// one.
pub proof fn lemma_extends_twice(a: BuilderView, b: BuilderView, c: BuilderView)
    requires
        extends(a, b),
        extends(b, c),
    ensures
        extends(a, c),
{
    assert forall|i: int| 0 <= i < a.objects.len() implies object_grown(
        a.objects[i],
        #[trigger] c.objects[i],
    ) by {
        assert(object_grown(a.objects[i], b.objects[i]));
        assert(object_grown(b.objects[i], c.objects[i]));
    }
}

/// Nothing that the builder has once recorded is changed or removed by what
/// follows: the objects keep their order, which is that of their first
/// declaration, and the values, the errors and each object's values and
/// transitions keep theirs.
pub proof fn lemma_feed_all_extends(b: BuilderView, items: Seq<ItemView>)
    ensures
        extends(b, feed_all(b, items)),
    decreases items.len(),
{
    if items.len() > 0 {
        let mid = feed_all(b, items.drop_last());
        lemma_feed_all_extends(b, items.drop_last());
        lemma_feed_extends(mid, items.last());
        lemma_extends_twice(b, mid, feed(mid, items.last()));
    }
}

/// To take two sequences of elements one after the other is to take them as
/// one.
pub proof fn lemma_feed_all_concat(b: BuilderView, x: Seq<ItemView>, y: Seq<ItemView>)
    ensures
        feed_all(b, x + y) == feed_all(feed_all(b, x), y),
    decreases y.len(),
{
    if y.len() == 0 {
        assert(x + y =~= x);
    } else {
        lemma_feed_all_concat(b, x, y.drop_last());
        assert((x + y).drop_last() =~= x + y.drop_last());
        assert((x + y).last() == y.last());
    }
}

/// The table of a text holds the objects and the values of the table of
/// each of its beginnings, in their places.
pub proof fn lemma_table_of_beginning(items: Seq<ItemView>, n: int, verbose: bool)
    requires
        0 <= n <= items.len(),
    ensures
        grown(run(items.take(n), verbose).values, run(items, verbose).values),
        run(items.take(n), verbose).objects.len() <= run(items, verbose).objects.len(),
        forall|i: int|
            0 <= i < run(items.take(n), verbose).objects.len() ==> object_grown(
                run(items.take(n), verbose).objects[i],
                #[trigger] run(items, verbose).objects[i],
            ),
{
    let head = items.take(n);
    let tail = items.skip(n);
    assert(head + tail =~= items);
    lemma_feed_all_concat(start(verbose), head, tail);
    lemma_feed_all_extends(feed_all(start(verbose), head), tail);
}

/// The errors of `errors` that are no lexical errors, in order.
pub open spec fn semantic_only(errors: Seq<ParserErrorView>) -> Seq<ParserErrorView>
    decreases errors.len(),
{
    if errors.len() == 0 {
        Seq::empty()
    } else if errors.last() is Lexical {
        semantic_only(errors.drop_last())
    } else {
        semantic_only(errors.drop_last()).push(errors.last())
    }
}

/// The semantic errors of a list that grows by errors that are all
/// semantic.
proof fn lemma_semantic_only_more(errors: Seq<ParserErrorView>, more: Seq<ParserErrorView>)
    requires
        forall|k: int| 0 <= k < more.len() ==> !(#[trigger] more[k] is Lexical),
    ensures
        semantic_only(errors + more) == semantic_only(errors) + more,
    decreases more.len(),
{
    if more.len() == 0 {
        assert(errors + more =~= errors);
        assert(semantic_only(errors) + more =~= semantic_only(errors));
    } else {
        let init = more.drop_last();
        lemma_semantic_only_more(errors, init);
        assert((errors + more).drop_last() =~= errors + init);
        assert((errors + more).last() == more.last());
        assert(!(more[more.len() - 1] is Lexical));
        assert((semantic_only(errors) + init).push(more.last()) =~= semantic_only(errors) + more);
    }
}

/// Whether the state `quiet` is the state `loud` without the lexical errors
/// that `loud` has recorded and `quiet` has dropped.
pub open spec fn same_but_lexical(loud: BuilderView, quiet: BuilderView) -> bool {
    &&& loud.verbose
    &&& !quiet.verbose
    &&& quiet.objects == loud.objects
    &&& quiet.values == loud.values
    &&& quiet.contexts == loud.contexts
    &&& quiet.pending == loud.pending
    &&& quiet.mode == loud.mode
    &&& quiet.t == loud.t
    &&& quiet.errors == semantic_only(loud.errors)
}

/// One element keeps a builder that drops the lexical errors in step with
/// one that records them.
pub proof fn lemma_feed_same_but_lexical(loud: BuilderView, quiet: BuilderView, item: ItemView)
    requires
        same_but_lexical(loud, quiet),
    ensures
        same_but_lexical(feed(loud, item), feed(quiet, item)),
{
    let l = feed(loud, item);
    let q = feed(quiet, item);
    match item {
        Err(e) => {
            assert(l.errors.drop_last() =~= loud.errors);
        },
        Ok(t) => {
            let n = loud.pending.len() as int;
            if t.kind == TokenKind::Semicolon && current(loud) == Context::TransitionBody && n >= 3
                && find(loud.objects, loud.pending[n - 3].text) is Some {
                let i = find(loud.objects, loud.pending[n - 3].text)->0;
                lemma_find_from(loud.objects, loud.pending[n - 3].text, 0);
                let new = TransitionView {
                    pos: loud.pending[n - 2].pos,
                    origin: loud.pending[n - 2].text,
                    target: loud.pending[n - 1].text,
                    mode: loud.mode,
                };
                let found = clashes(loud.objects[i].transitions, new);
                lemma_clashes(loud.objects[i].transitions, new);
                lemma_semantic_only_more(loud.errors, found);
            } else if l.errors != loud.errors {
                let e = l.errors.last();
                assert(l.errors =~= loud.errors + seq![e]);
                assert(q.errors =~= quiet.errors + seq![e]);
                lemma_semantic_only_more(loud.errors, seq![e]);
            }
        },
    }
}

/// A sequence of elements keeps a builder that drops the lexical errors in
/// step with one that records them.
pub proof fn lemma_feed_all_same_but_lexical(
    loud: BuilderView,
    quiet: BuilderView,
    items: Seq<ItemView>,
)
    requires
        same_but_lexical(loud, quiet),
    ensures
        same_but_lexical(feed_all(loud, items), feed_all(quiet, items)),
    decreases items.len(),
{
    if items.len() > 0 {
        lemma_feed_all_same_but_lexical(loud, quiet, items.drop_last());
        lemma_feed_same_but_lexical(
            feed_all(loud, items.drop_last()),
            feed_all(quiet, items.drop_last()),
            items.last(),
        );
    }
}

/// The flag decides of the lexical errors alone: the table made without it
/// has the objects and the values of the table made with it, and its
/// errors without the lexical ones, in the same order.
pub proof fn lemma_flag_decides_lexical_errors_only(items: Seq<ItemView>)
    ensures
        run(items, false).objects == run(items, true).objects,
        run(items, false).values == run(items, true).values,
        run(items, false).errors == semantic_only(run(items, true).errors),
{
    assert(semantic_only(start(true).errors) =~= start(false).errors);
    lemma_feed_all_same_but_lexical(start(true), start(false), items);
    let loud = feed_all(start(true), items);
    lemma_semantic_only_more(loud.errors, unclosed(loud.pending));
}

/// The table depends on the elements and the flag alone: the same elements
/// give the same table.
pub proof fn lemma_run_determined(a: Seq<ItemView>, b: Seq<ItemView>, verbose: bool)
    requires
        a =~= b,
    ensures
        run(a, verbose) == run(b, verbose),
{
}

} // verus!
