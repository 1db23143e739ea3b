//! The symbol table and the errors that its construction can record.

use vstd::prelude::*;
use crate::kinds::{StateTypes, WritingBehaviour};
use crate::builder::Builder;
use crate::grammar::{lemma_lex_used, lex_all};
use crate::laws::{lemma_find_from, lemma_table_sound, table_sound};
use crate::rules::{feed_all, find, find_from, lemma_feed_all_first, run, start};
use crate::scanner::{
    item_view, items_view, Pos, PosView, Scanner, ScannerError, ScannerErrorView, Token,
};

verus! {

/// What a semantic error stands for.
pub enum ParserErrorView {
    Lexical(ScannerErrorView),
    DuplicateTransition(PosView, Seq<char>, Seq<char>, PosView),
    UndefinedIdentifier(PosView, Seq<char>),
    Unclosed(PosView, Seq<char>),
    DuplicateAttribute(PosView, Seq<char>),
    DuplicateWriteMode(PosView, Seq<char>),
    UnattachedModifier(PosView, Seq<char>),
    ExpectedIdentifier(PosView, Seq<char>),
    UnbalancedGroup(PosView),
    UnbalancedBlock(PosView),
    LiteralOutsideGroup(PosView, Seq<char>),
    ReservedTokenUnused(PosView, Seq<char>),
    UnexpectedEndOfStatement(PosView),
}

/// An error found while the table is built. None of them stops the
/// construction.
#[derive(Clone, Debug, PartialEq, Eq)]
pub enum ParserError {
    /// An error of the scanner, passed on.
    Lexical(ScannerError),
    /// An object has a second transition from one origin. Holds the position
    /// and the names of the new transition's origin and target, and the
    /// position of the earlier transition.
    DuplicateTransition(Pos, String, String, Pos),
    /// A name that should be an object's is none. Holds the name and where it
    /// stands.
    UndefinedIdentifier(Pos, String),
    /// A name was still pending at the end of the input.
    Unclosed(Pos, String),
    /// `*` or `:` repeats a role that is already set. Holds the sign.
    DuplicateAttribute(Pos, String),
    /// `^` or `%` follows another choice of write mode in the same
    /// transition. Holds the sign.
    DuplicateWriteMode(Pos, String),
    /// A sign or a literal has nothing to attach to. Holds its text.
    UnattachedModifier(Pos, String),
    /// `(` or `{` follows no name. Holds the sign.
    ExpectedIdentifier(Pos, String),
    /// `)` where no group is open.
    UnbalancedGroup(Pos),
    /// `}` where no block is open.
    UnbalancedBlock(Pos),
    /// A literal outside a group. Holds its text.
    LiteralOutsideGroup(Pos, String),
    /// A sign that has no meaning yet. Holds the sign.
    ReservedTokenUnused(Pos, String),
    /// `;` where too few names are pending.
    UnexpectedEndOfStatement(Pos),
}

impl View for ParserError {
    type V = ParserErrorView;

    open spec fn view(&self) -> ParserErrorView {
        match self {
            ParserError::Lexical(e) => ParserErrorView::Lexical(e@),
            ParserError::DuplicateTransition(p, o, t, q) => ParserErrorView::DuplicateTransition(
                p@,
                o@,
                t@,
                q@,
            ),
            ParserError::UndefinedIdentifier(p, s) => ParserErrorView::UndefinedIdentifier(p@, s@),
            ParserError::Unclosed(p, s) => ParserErrorView::Unclosed(p@, s@),
            ParserError::DuplicateAttribute(p, s) => ParserErrorView::DuplicateAttribute(p@, s@),
            ParserError::DuplicateWriteMode(p, s) => ParserErrorView::DuplicateWriteMode(p@, s@),
            ParserError::UnattachedModifier(p, s) => ParserErrorView::UnattachedModifier(p@, s@),
            ParserError::ExpectedIdentifier(p, s) => ParserErrorView::ExpectedIdentifier(p@, s@),
            ParserError::UnbalancedGroup(p) => ParserErrorView::UnbalancedGroup(p@),
            ParserError::UnbalancedBlock(p) => ParserErrorView::UnbalancedBlock(p@),
            ParserError::LiteralOutsideGroup(p, s) => ParserErrorView::LiteralOutsideGroup(p@, s@),
            ParserError::ReservedTokenUnused(p, s) => ParserErrorView::ReservedTokenUnused(p@, s@),
            ParserError::UnexpectedEndOfStatement(p) => ParserErrorView::UnexpectedEndOfStatement(
                p@,
            ),
        }
    }
}

/// What a transition stands for.
pub struct TransitionView {
    pub pos: PosView,
    pub origin: Seq<char>,
    pub target: Seq<char>,
    pub mode: WritingBehaviour,
}

/// One transition of an object: where it is declared, the names of its
/// origin and target, and its write mode.
#[derive(Clone, Debug, PartialEq, Eq)]
pub struct Transition {
    pub pos: Pos,
    pub origin: String,
    pub target: String,
    pub mode: WritingBehaviour,
}

impl View for Transition {
    type V = TransitionView;

    open spec fn view(&self) -> TransitionView {
        TransitionView {
            pos: self.pos@,
            origin: self.origin@,
            target: self.target@,
            mode: self.mode,
        }
    }
}

/// What an object stands for.
pub struct ObjectView {
    pub values: Seq<nat>,
    pub id: Seq<char>,
    pub transitions: Seq<TransitionView>,
    pub loc: PosView,
    pub t: StateTypes,
}

/// A named node: where it was first declared, its roles, its values, as
/// indices into the table of values, and its transitions, in the order of
/// their declaration.
#[derive(Clone, Debug, PartialEq, Eq)]
pub struct Object {
    pub values: Vec<usize>,
    pub id: String,
    pub transitions: Vec<Transition>,
    pub loc: Pos,
    pub t: StateTypes,
}

impl View for Object {
    type V = ObjectView;

    open spec fn view(&self) -> ObjectView {
        ObjectView {
            values: indices_view(self.values@),
            id: self.id@,
            transitions: transitions_view(self.transitions@),
            loc: self.loc@,
            t: self.t,
        }
    }
}

/// The indices of `s` as natural numbers.
pub open spec fn indices_view(s: Seq<usize>) -> Seq<nat> {
    Seq::new(s.len(), |i: int| s[i] as nat)
}

/// The views of the transitions of `s`, in order.
pub open spec fn transitions_view(s: Seq<Transition>) -> Seq<TransitionView> {
    Seq::new(s.len(), |i: int| s[i]@)
}

/// The views of the objects of `s`, in order.
pub open spec fn objects_view(s: Seq<Object>) -> Seq<ObjectView> {
    Seq::new(s.len(), |i: int| s[i]@)
}

/// The views of the values of `s`, in order.
pub open spec fn values_view(s: Seq<(String, Pos)>) -> Seq<(Seq<char>, PosView)> {
    Seq::new(s.len(), |i: int| (s[i].0@, s[i].1@))
}

/// The views of the errors of `s`, in order.
pub open spec fn errors_view(s: Seq<ParserError>) -> Seq<ParserErrorView> {
    Seq::new(s.len(), |i: int| s[i]@)
}

/// What a symbol table stands for.
pub struct SymbolsView {
    pub objects: Seq<ObjectView>,
    pub values: Seq<(Seq<char>, PosView)>,
    pub errors: Seq<ParserErrorView>,
}

/// The symbol table of one source text: the objects in the order of their
/// first declaration, the literal values in the order of their appearance,
/// and the errors in the order in which they were found.
#[derive(Clone, Debug, PartialEq, Eq)]
pub struct Symbols {
    pub objects: Vec<Object>,
    pub values: Vec<(String, Pos)>,
    pub errors: Vec<ParserError>,
}

impl View for Symbols {
    type V = SymbolsView;

    open spec fn view(&self) -> SymbolsView {
        SymbolsView {
            objects: objects_view(self.objects@),
            values: values_view(self.values@),
            errors: errors_view(self.errors@),
        }
    }
}

impl Symbols {
    /// The index of the object that is named `id`, if there is one.
    pub fn index_of(&self, id: &String) -> (r: Option<usize>)
        ensures
            match r {
                Some(i) => find(self@.objects, id@) == Some(i as int) && i < self.objects.len(),
                None => find(self@.objects, id@) is None,
            },
    {
        let ghost objects = self@.objects;
        let mut i: usize = 0;
        while i < self.objects.len()
            invariant
                i <= self.objects.len(),
                objects == objects_view(self.objects@),
                find_from(objects, id@, i as int) == find(objects, id@),
            decreases self.objects.len() - i,
        {
            if self.objects[i].id == *id {
                return Some(i);
            }
            i = i + 1;
        }
        None
    }

    /// The object that is named `id`, if there is one.
    pub fn get(&self, id: &String) -> (r: Option<&Object>)
        ensures
            match r {
                Some(o) => find(self@.objects, id@) is Some && o@ == self@.objects[find(
                    self@.objects,
                    id@,
                )->0] && o@.id == id@,
                None => find(self@.objects, id@) is None,
            },
    {
        match self.index_of(id) {
            Some(i) => {
                proof {
                    lemma_find_from(self@.objects, id@, 0);
                }
                Some(&self.objects[i])
            },
            None => None,
        }
    }

    /// The table of the text that `scan` has before it. The scanner is
    /// driven one element at a time. With `verbose` set the scanner's errors
    /// are recorded among the table's errors, else they are dropped. No error
    /// stops the construction.
    pub fn parser(scan: Scanner, verbose: bool) -> (table: Symbols)
        ensures
            table@ == run(lex_all(scan@), verbose),
            table_sound(table@),
    {
        proof {
            lemma_table_sound(lex_all(scan@), verbose);
        }
        let ghost all = lex_all(scan@);
        let mut scan = scan;
        let mut b = Builder::new(verbose);
        loop
            invariant
                feed_all(b@, lex_all(scan@)) == feed_all(start(verbose), all),
            ensures
                b@ == feed_all(start(verbose), all),
            decreases scan@.rest.len(),
        {
            let ghost before = scan@;
            let ghost state = b@;
            proof {
                lemma_lex_used(before);
            }
            match scan.next() {
                Some(item) => {
                    b.feed(item);
                    proof {
                        let rest = lex_all(scan@);
                        assert(lex_all(before) == seq![item_view(item)] + rest);
                        assert(lex_all(before).drop_first() =~= rest);
                        lemma_feed_all_first(state, lex_all(before));
                    }
                },
                None => {
                    break ;
                },
            }
        }
        b.finish()
    }

    /// The table of the elements `items`, which a scanner has produced
    /// before.
    pub fn from_tokens(items: Vec<Result<Token, ScannerError>>, verbose: bool) -> (table: Symbols)
        ensures
            table@ == run(items_view(items@), verbose),
            table_sound(table@),
    {
        proof {
            lemma_table_sound(items_view(items@), verbose);
        }
let ghost all = items@;
        let mut b = Builder::new(verbose);
        proof {
            assert(items_view(all.take(0)) =~= Seq::empty());
        }
        for item in it: items
            invariant
                it.seq() == all,
                b@ == feed_all(start(verbose), items_view(all.take(it.index()))),
        {
            let ghost k = it.index();
            b.feed(item);
            proof {
                assert(items_view(all.take(k + 1)).drop_last() =~= items_view(all.take(k)));
                assert(items_view(all.take(k + 1)).last() == item_view(item));
            }
        }
        proof {
            assert(all.take(all.len() as int) =~= all);
        }
        b.finish()
    }
}

} // verus!
