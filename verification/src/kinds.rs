//! Role attributes of an object and write modes of a transition.

use vstd::prelude::*;
use vstd::std_specs::ops::{BitAndSpec, BitOrSpec, BitXorSpec};

verus! {

/// One role flag of an object.
#[derive(Clone, Copy, Debug, PartialEq, Eq, Structural)]
pub enum Attribute {
    EntryPoint,
    EndPoint,
}

/// The set of role flags of an object. The empty set is a plain pass-through
/// node, the full set a hub.
#[derive(Clone, Copy, Debug, PartialEq, Eq, Structural)]
pub struct StateTypes {
    pub entry: bool,
    pub end: bool,
}

impl View for StateTypes {
    type V = Set<Attribute>;

    open spec fn view(&self) -> Set<Attribute> {
        Set::new(
            |a: Attribute|
                match a {
                    Attribute::EntryPoint => self.entry,
                    Attribute::EndPoint => self.end,
                },
        )
    }
}

impl StateTypes {
    /// No flag at all.
    pub fn through() -> (r: StateTypes)
        ensures
            r@ == Set::<Attribute>::empty(),
            r == (StateTypes { entry: false, end: false }),
    {
        let r = StateTypes { entry: false, end: false };
        assert(r@ =~= Set::<Attribute>::empty());
        r
    }

    /// The entry flag alone.
    pub fn entry_point() -> (r: StateTypes)
        ensures
            r@ == set![Attribute::EntryPoint],
            r == (StateTypes { entry: true, end: false }),
    {
        let r = StateTypes { entry: true, end: false };
        assert(r@ =~= set![Attribute::EntryPoint]);
        r
    }

    /// The end flag alone.
    pub fn end_point() -> (r: StateTypes)
        ensures
            r@ == set![Attribute::EndPoint],
            r == (StateTypes { entry: false, end: true }),
    {
        let r = StateTypes { entry: false, end: true };
        assert(r@ =~= set![Attribute::EndPoint]);
        r
    }

    /// Both flags.
    pub fn hub() -> (r: StateTypes)
        ensures
            r@ == set![Attribute::EntryPoint, Attribute::EndPoint],
            r == (StateTypes { entry: true, end: true }),
    {
        let r = StateTypes { entry: true, end: true };
        assert(r@ =~= set![Attribute::EntryPoint, Attribute::EndPoint]);
        r
    }

    /// The set with `a` added.
    pub fn with(&self, a: Attribute) -> (r: StateTypes)
        ensures
            r@ == self@.insert(a),
            r == match a {
                Attribute::EntryPoint => StateTypes { entry: true, end: self.end },
                Attribute::EndPoint => StateTypes { entry: self.entry, end: true },
            },
    {
        let r = match a {
            Attribute::EntryPoint => StateTypes { entry: true, end: self.end },
            Attribute::EndPoint => StateTypes { entry: self.entry, end: true },
        };
        assert(r@ =~= self@.insert(a));
        r
    }

    /// Whether `a` is in the set.
    pub fn contains(&self, a: Attribute) -> (b: bool)
        ensures
            b == self@.contains(a),
    {
        match a {
            Attribute::EntryPoint => self.entry,
            Attribute::EndPoint => self.end,
        }
    }
}

impl StateTypes {
    /// The flags of either set.
    pub fn union(self, other: StateTypes) -> (r: StateTypes)
        ensures
            r@ == self@.union(other@),
            r == (StateTypes { entry: self.entry || other.entry, end: self.end || other.end }),
    {
        let r = StateTypes { entry: self.entry || other.entry, end: self.end || other.end };
        assert(r@ =~= self@.union(other@));
        r
    }

    /// The flags of both sets.
    pub fn intersection(self, other: StateTypes) -> (r: StateTypes)
        ensures
            r@ == self@.intersect(other@),
            r == (StateTypes { entry: self.entry && other.entry, end: self.end && other.end }),
    {
        let r = StateTypes { entry: self.entry && other.entry, end: self.end && other.end };
        assert(r@ =~= self@.intersect(other@));
        r
    }

    /// The flags of one set and not of the other.
    pub fn symmetric_difference(self, other: StateTypes) -> (r: StateTypes)
        ensures
            r@ == self@.difference(other@).union(other@.difference(self@)),
            r == (StateTypes { entry: self.entry != other.entry, end: self.end != other.end }),
    {
        let r = StateTypes { entry: self.entry != other.entry, end: self.end != other.end };
        assert(r@ =~= self@.difference(other@).union(other@.difference(self@)));
        r
    }
}

impl core::ops::BitOr for StateTypes {
    type Output = StateTypes;

    /// `a | b` is the union.
    fn bitor(self, rhs: StateTypes) -> (r: StateTypes) {
        self.union(rhs)
    }
}

impl vstd::std_specs::ops::BitOrSpecImpl for StateTypes {
    open spec fn obeys_bitor_spec() -> bool {
        true
    }

    open spec fn bitor_req(self, rhs: StateTypes) -> bool {
        true
    }

    open spec fn bitor_spec(self, rhs: StateTypes) -> StateTypes {
        StateTypes { entry: self.entry || rhs.entry, end: self.end || rhs.end }
    }
}

impl core::ops::BitAnd for StateTypes {
    type Output = StateTypes;

    /// `a & b` is the intersection.
    fn bitand(self, rhs: StateTypes) -> (r: StateTypes) {
        self.intersection(rhs)
    }
}

impl vstd::std_specs::ops::BitAndSpecImpl for StateTypes {
    open spec fn obeys_bitand_spec() -> bool {
        true
    }

    open spec fn bitand_req(self, rhs: StateTypes) -> bool {
        true
    }

    open spec fn bitand_spec(self, rhs: StateTypes) -> StateTypes {
        StateTypes { entry: self.entry && rhs.entry, end: self.end && rhs.end }
    }
}

impl core::ops::BitXor for StateTypes {
    type Output = StateTypes;

    /// `a ^ b` is the symmetric difference.
    fn bitxor(self, rhs: StateTypes) -> (r: StateTypes) {
        self.symmetric_difference(rhs)
    }
}

impl vstd::std_specs::ops::BitXorSpecImpl for StateTypes {
    open spec fn obeys_bitxor_spec() -> bool {
        true
    }

    open spec fn bitxor_req(self, rhs: StateTypes) -> bool {
        true
    }

    open spec fn bitxor_spec(self, rhs: StateTypes) -> StateTypes {
        StateTypes { entry: self.entry != rhs.entry, end: self.end != rhs.end }
    }
}

/// The three operators are the operations on sets: `|` the union, `&` the
/// intersection, `^` the symmetric difference.
pub proof fn lemma_operators_on_sets(a: StateTypes, b: StateTypes)
    ensures
        a.bitor_spec(b)@ == a@.union(b@),
        a.bitand_spec(b)@ == a@.intersect(b@),
        a.bitxor_spec(b)@ == a@.difference(b@).union(b@.difference(a@)),
{
    assert(a.bitor_spec(b)@ =~= a@.union(b@));
    assert(a.bitand_spec(b)@ =~= a@.intersect(b@));
    assert(a.bitxor_spec(b)@ =~= a@.difference(b@).union(b@.difference(a@)));
}

/// A set of flags is determined by the flags it holds.
pub proof fn lemma_view_determines(a: StateTypes, b: StateTypes)
    requires
        a@ == b@,
    ensures
        a == b,
{
    assert(a@.contains(Attribute::EntryPoint) == a.entry);
    assert(b@.contains(Attribute::EntryPoint) == b.entry);
    assert(a@.contains(Attribute::EndPoint) == a.end);
    assert(b@.contains(Attribute::EndPoint) == b.end);
}

/// When a transition writes, relative to being taken.
#[derive(Clone, Copy, Debug, PartialEq, Eq, Structural)]
pub enum WritingBehaviour {
    /// The default.
    WriteAfter,
    WriteBefore,
    NoWrite,
}

/// The construct that is open at some point of a source text.
#[derive(Clone, Copy, Debug, PartialEq, Eq, Structural)]
pub enum Context {
    /// Nothing is open.
    Top,
    /// The values of an object, between `(` and `)`.
    GroupBody,
    /// The transitions of an object, between `{` and `}`.
    BlockBody,
    /// One transition, between `=` and `;`.
    TransitionBody,
}

} // verus!
