use std::marker::PhantomData;
use vstd::prelude::*;
use vstd::std_specs::cmp::PartialEqSpec;

use crate::interner::{DedupInterner, IdentityInterner, SpaceInterner};

verus! {

/// Opaque, copyable handle into a [`SpaceContext`].
///
/// A `Space` is only meaningful when interpreted by the same context that
/// created it. Its view is its id: `0` is the empty space, and id `i + 1`
/// names the `i`-th node of the context.
#[derive(Debug, Hash)]
pub struct Space<T, E> {
    id: usize,
    _marker: PhantomData<(T, E)>,
}

impl<T, E> View for Space<T, E> {
    type V = nat;

    closed spec fn view(&self) -> nat {
        self.id as nat
    }
}

impl<T, E> PartialEq for Space<T, E> {
    fn eq(&self, other: &Self) -> (same: bool) {
        self.id == other.id
    }
}

impl<T, E> Eq for Space<T, E> {

}

impl<T, E> vstd::std_specs::cmp::PartialEqSpecImpl for Space<T, E> {
    open spec fn obeys_eq_spec() -> bool {
        true
    }

    open spec fn eq_spec(&self, other: &Self) -> bool {
        self@ == other@
    }
}

impl<T, E> Clone for Space<T, E> {
    fn clone(&self) -> (copy: Self)
        ensures
            copy == *self,
    {
        *self
    }
}

impl<T, E> Copy for Space<T, E> {

}

impl<T, E> Space<T, E> {
    /// The handle with id `id`.
    pub closed spec fn with_id(id: nat) -> Self {
        Space { id: id as usize, _marker: PhantomData }
    }

    /// A handle is the handle of its id, and an id that fits in a `usize` is
    /// the id of its handle.
    pub proof fn lemma_with_id(self, id: nat)
        ensures
            Self::with_id(self@) == self,
            id <= usize::MAX ==> Self::with_id(id)@ == id,
    {
    }

    /// A handle's id fits in a `usize`.
    pub proof fn lemma_id_fits(self)
        ensures
            self@ <= usize::MAX,
    {
    }

    /// Two handles with the same id are the same handle.
    pub proof fn lemma_same_id(a: Self, b: Self)
        requires
            a@ == b@,
        ensures
            a == b,
    {
        assert(a.id == b.id);
        assert(a._marker == b._marker);
    }

    pub(crate) fn empty() -> (space: Self)
        ensures
            space@ == 0,
    {
        Space { id: 0, _marker: PhantomData }
    }

    fn from_node_index(index: usize) -> (space: Self)
        requires
            index < usize::MAX,
        ensures
            space@ == index + 1,
    {
        Space { id: index + 1, _marker: PhantomData }
    }

    /// The handle with the given raw id.
    pub(crate) fn from_raw_id(id: usize) -> (space: Self)
        ensures
            space@ == id,
    {
        Space { id, _marker: PhantomData }
    }

    /// Builds a handle from a raw id, whether or not any context knows it.
    pub fn from_raw_id_for_tests(id: usize) -> (space: Self)
        ensures
            space@ == id,
    {
        Space { id, _marker: PhantomData }
    }

    fn node_index(self) -> (index: Option<usize>)
        ensures
            self@ == 0 ==> index is None,
            self@ != 0 ==> index == Some((self@ - 1) as usize),
    {
        if self.id == 0 {
            None
        } else {
            Some(self.id - 1)
        }
    }

    /// The raw id of the handle.
    pub fn raw_id(self) -> (id: usize)
        ensures
            id == self@,
    {
        self.id
    }

    /// Returns `true` when the space contains no values.
    pub fn is_empty(self) -> (empty: bool)
        ensures
            empty == (self@ == 0),
    {
        self.id == 0
    }

    /// Returns a resolved view of the space shape using the owning context.
    pub fn kind<'a, TI, EI>(self, context: &'a SpaceContext<T, E, TI, EI>) -> (kind: SpaceKind<
        'a,
        T,
        E,
    >) where T: Eq + std::hash::Hash, E: Eq + std::hash::Hash, TI: SpaceInterner<Item = T>, EI: SpaceInterner<Item = E>
        requires
            context.wf(),
            context.valid_space(self),
        ensures
            context.describes(self, kind),
    {
        context.kind(self)
    }
}

/// The key under which the ordered pair `(left, right)` is memoized.
pub(crate) fn space_pair_key<T, E>(left: Space<T, E>, right: Space<T, E>) -> (key: (usize, usize))
    ensures
        key.0 == left@,
        key.1 == right@,
{
    (left.raw_id(), right.raw_id())
}

/// A node stored in a [`SpaceContext`].
pub enum SpaceNode<T, E, TK, EK> {
    /// Every value of the type with key `value_type`.
    Type { value_type: TK, introduced_by_decomposition: bool },
    /// Values accepted by `extractor`, with one subspace per parameter.
    Product { value_type: TK, extractor: EK, parameters: Vec<Space<T, E>> },
    /// The union of the member spaces.
    Union(Vec<Space<T, E>>),
}

/// The member spaces of a union node (empty for other nodes).
pub open spec fn union_members<T, E, TK, EK>(node: SpaceNode<T, E, TK, EK>) -> Seq<Space<T, E>> {
    match node {
        SpaceNode::Union(members) => members@,
        _ => Seq::empty(),
    }
}

/// The parameter spaces of a product node (empty for other nodes).
pub open spec fn product_parameters<T, E, TK, EK>(node: SpaceNode<T, E, TK, EK>) -> Seq<
    Space<T, E>,
> {
    match node {
        SpaceNode::Product { parameters, .. } => parameters@,
        _ => Seq::empty(),
    }
}

/// Whether two nodes have the same shape, with keys compared by their
/// equality specification.
pub open spec fn same_node<T, E, TK: PartialEq, EK: PartialEq>(
    a: SpaceNode<T, E, TK, EK>,
    b: SpaceNode<T, E, TK, EK>,
) -> bool {
    match (a, b) {
        (
            SpaceNode::Type { value_type: k1, introduced_by_decomposition: d1 },
            SpaceNode::Type { value_type: k2, introduced_by_decomposition: d2 },
        ) => k1.eq_spec(&k2) && d1 == d2,
        (
            SpaceNode::Product { value_type: k1, extractor: e1, parameters: p1 },
            SpaceNode::Product { value_type: k2, extractor: e2, parameters: p2 },
        ) => k1.eq_spec(&k2) && e1.eq_spec(&e2) && p1@ == p2@,
        (SpaceNode::Union(m1), SpaceNode::Union(m2)) => m1@ == m2@,
        _ => false,
    }
}

/// Read-only metadata for a type-based space.
#[derive(Clone, Copy, Debug, PartialEq, Eq)]
pub struct TypeSpace<TRef> {
    /// The type represented by the space.
    pub value_type: TRef,
    /// Whether the space was introduced by type decomposition.
    pub introduced_by_decomposition: bool,
}

/// Read-only metadata for an extractor or constructor space.
#[derive(Clone, Copy, Debug, PartialEq, Eq)]
pub struct ProductSpace<'a, T, E, TRef, ERef> {
    /// The type represented by the space.
    pub value_type: TRef,
    /// The extractor or constructor identity.
    pub extractor: ERef,
    /// Subspaces matched for the extractor parameters.
    pub parameters: &'a [Space<T, E>],
}

/// Resolved view over a [`Space`] value.
#[derive(Clone, Copy, Debug, PartialEq, Eq)]
pub enum SpaceKind<'a, T, E, TRef = &'a T, ERef = &'a E> {
    /// The empty set.
    Empty,
    /// All values that inhabit an implementation-defined type.
    Type(TypeSpace<TRef>),
    /// Values accepted by an extractor with parameter subspaces.
    Product(ProductSpace<'a, T, E, TRef, ERef>),
    /// The union of multiple spaces.
    Union(&'a [Space<T, E>]),
}

/// Error returned when a non-empty [`Space`] id is unknown to a [`SpaceContext`].
///
/// This is a best-effort check. Because [`Space`] is an opaque raw handle, a
/// foreign space with the same raw id cannot be distinguished.
#[derive(Clone, Copy, Debug, PartialEq, Eq)]
pub struct SpaceLookupError;

impl SpaceLookupError {
    /// The human-readable description of the error.
    pub fn message(&self) -> (text: &'static str)
        ensures
            text@ == "space id is not interned in this context"@,
    {
        "space id is not interned in this context"
    }
}

/// Interner and storage for space nodes.
#[verifier::reject_recursive_types(T)]
#[verifier::reject_recursive_types(E)]
#[verifier::reject_recursive_types(TI)]
#[verifier::reject_recursive_types(EI)]
pub struct SpaceContext<T, E, TI = DedupInterner<T>, EI = DedupInterner<E>> where
    TI: SpaceInterner<Item = T>,
    EI: SpaceInterner<Item = E>,
 {
    types: TI,
    extractors: EI,
    nodes: Vec<SpaceNode<T, E, TI::Key, EI::Key>>,
}

/// A [`SpaceContext`] that treats caller-provided type and extractor values as interned keys.
pub type PreInternedSpaceContext<T, E> = SpaceContext<
    T,
    E,
    IdentityInterner<T>,
    IdentityInterner<E>,
>;

impl<T, E, TI, EI> SpaceContext<T, E, TI, EI> where
    T: Eq + std::hash::Hash,
    E: Eq + std::hash::Hash,
    TI: SpaceInterner<Item = T>,
    EI: SpaceInterner<Item = E>,
 {
    /// The stored nodes; node `i` is named by the space with id `i + 1`.
    pub closed spec fn nodes(self) -> Seq<SpaceNode<T, E, TI::Key, EI::Key>> {
        self.nodes@
    }

    /// The interner of type values.
    pub closed spec fn type_interner(self) -> TI {
        self.types
    }

    /// The interner of extractor values.
    pub closed spec fn extractor_interner(self) -> EI {
        self.extractors
    }

    /// `space` is empty or names a node of this context.
    pub open spec fn valid_space(self, space: Space<T, E>) -> bool {
        space@ <= self.nodes().len()
    }

    /// The node named by a non-empty valid space.
    pub open spec fn node(self, space: Space<T, E>) -> SpaceNode<T, E, TI::Key, EI::Key> {
        self.nodes()[space@ - 1]
    }

    /// `space` names a union node.
    pub open spec fn is_union(self, space: Space<T, E>) -> bool {
        space@ != 0 && self.node(space) is Union
    }

    /// What node `node` must satisfy to be stored at position `index`: its keys
    /// are valid, its parameters are earlier spaces, and a union has at least two
    /// members, each an earlier non-empty space that is not itself a union.
    pub open spec fn node_ok(self, node: SpaceNode<T, E, TI::Key, EI::Key>, index: int) -> bool {
        match node {
            SpaceNode::Type { value_type, .. } => self.type_interner().valid_key(value_type),
            SpaceNode::Product { value_type, extractor, parameters } => {
                &&& self.type_interner().valid_key(value_type)
                &&& self.extractor_interner().valid_key(extractor)
                &&& forall|j: int|
                    0 <= j < parameters@.len() ==> #[trigger] parameters@[j]@ <= index
            },
            SpaceNode::Union(members) => {
                &&& members@.len() >= 2
                &&& forall|j: int|
                    0 <= j < members@.len() ==> 1 <= #[trigger] members@[j]@ <= index
                        && !(self.nodes()[members@[j]@ - 1] is Union)
            },
        }
    }

    /// The context's invariant: every node is well formed at its position, no
    /// two union nodes have the same members, and no node is stored twice.
    pub open spec fn wf(self) -> bool {
        &&& forall|i: int| 0 <= i < self.nodes().len() ==> self.node_ok(#[trigger] self.nodes()[i], i)
        &&& self.unions_distinct()
        &&& self.nodes_distinct()
    }

    /// Each interner hands out one key at most for items that `==` finds
    /// equal to each other.
    pub open spec fn keys_distinct(self) -> bool {
        self.type_interner().distinct_keys() && self.extractor_interner().distinct_keys()
    }

    /// Where the keys' `==` is specified, no stored node is `==` to a node
    /// stored after it.
    pub open spec fn nodes_distinct(self) -> bool {
        (TI::Key::obeys_eq_spec() && EI::Key::obeys_eq_spec()) ==> forall|i: int, j: int|
            0 <= i < j < self.nodes().len() ==> !same_node(#[trigger] self.nodes()[i], #[trigger] self.nodes()[j])
    }

    /// Spaces are interned: where the keys' `==` is specified, two stored
    /// spaces whose nodes are `==` to each other are the same space.
    pub proof fn lemma_node_unique(self, first: Space<T, E>, second: Space<T, E>)
        requires
            self.wf(),
            TI::Key::obeys_eq_spec(),
            EI::Key::obeys_eq_spec(),
            first@ != 0,
            second@ != 0,
            self.valid_space(first),
            self.valid_space(second),
            same_node(self.node(first), self.node(second)),
            same_node(self.node(second), self.node(first)),
        ensures
            first == second,
    {
        let i = first@ - 1;
        let j = second@ - 1;
        if i < j {
            assert(!same_node(self.nodes()[i], self.nodes()[j]));
        } else if j < i {
            assert(!same_node(self.nodes()[j], self.nodes()[i]));
        }
        Space::lemma_same_id(first, second);
    }

    /// No two union nodes have the same members.
    pub open spec fn unions_distinct(self) -> bool {
        forall|i: int, j: int|
            0 <= i < j < self.nodes().len() && (#[trigger] self.nodes()[i]) is Union && (
            #[trigger] self.nodes()[j]) is Union ==> union_members(self.nodes()[i]) != union_members(self.nodes()[j])
    }

    /// Spaces are interned: in a well-formed context, one space at most is the
    /// union of a given list of members.
    pub proof fn lemma_union_unique(self, first: Space<T, E>, second: Space<T, E>, members: Seq<Space<T, E>>)
        requires
            self.wf(),
            self.is_union_of(first, members),
            self.is_union_of(second, members),
        ensures
            first == second,
    {
        if members.len() >= 2 {
            let i = first@ - 1;
            let j = second@ - 1;
            if i < j {
                assert(union_members(self.nodes()[i]) != union_members(self.nodes()[j]));
            } else if j < i {
                assert(union_members(self.nodes()[j]) != union_members(self.nodes()[i]));
            }
        }
        if members.len() == 0 || members.len() >= 2 {
            Space::lemma_same_id(first, second);
        }
    }

    /// Asking twice for the union of the same spaces gives the same space: the
    /// context after the first call, grown by anything in between, holds the
    /// result of the second.
    pub proof fn lemma_union_twice(
        before: Self,
        middle: Self,
        after: Self,
        spaces: Seq<Space<T, E>>,
        first: Space<T, E>,
        second: Space<T, E>,
    )
        requires
            before.wf(),
            forall|i: int| 0 <= i < spaces.len() ==> before.valid_space(#[trigger] spaces[i]),
            middle.wf(),
            middle.extends(before),
            middle.is_union_of(first, before.union_member_list(spaces)),
            after.wf(),
            after.extends(middle),
            after.is_union_of(second, middle.union_member_list(spaces)),
        ensures
            first == second,
    {
        middle.lemma_union_member_list_extends(before, spaces);
        after.lemma_is_union_of_extends(middle, first, before.union_member_list(spaces));
        after.lemma_union_unique(first, second, before.union_member_list(spaces));
    }

    /// `self` is a later state of `prev`: nodes were only appended, and the
    /// interners only gained keys.
    pub open spec fn extends(self, prev: Self) -> bool {
        &&& prev.nodes().len() <= self.nodes().len()
        &&& forall|i: int| 0 <= i < prev.nodes().len() ==> #[trigger] self.nodes()[i] == prev.nodes()[i]
        &&& forall|k: TI::Key|
            #[trigger] prev.type_interner().valid_key(k) ==> self.type_interner().valid_key(k)
                && self.type_interner().item(k) == prev.type_interner().item(k)
        &&& forall|k: EI::Key|
            #[trigger] prev.extractor_interner().valid_key(k) ==> self.extractor_interner().valid_key(k)
                && self.extractor_interner().item(k) == prev.extractor_interner().item(k)
    }

    /// `kind` is the resolved view of `space` in this context.
    pub open spec fn describes(self, space: Space<T, E>, kind: SpaceKind<T, E>) -> bool {
        if space@ == 0 {
            kind is Empty
        } else {
            match self.node(space) {
                SpaceNode::Type { value_type, introduced_by_decomposition } => match kind {
                    SpaceKind::Type(t) => *t.value_type == self.type_interner().item(value_type)
                        && t.introduced_by_decomposition == introduced_by_decomposition,
                    _ => false,
                },
                SpaceNode::Product { value_type, extractor, parameters } => match kind {
                    SpaceKind::Product(p) => *p.value_type == self.type_interner().item(value_type)
                        && *p.extractor == self.extractor_interner().item(extractor)
                        && p.parameters@ == parameters@,
                    _ => false,
                },
                SpaceNode::Union(members) => match kind {
                    SpaceKind::Union(m) => m@ == members@,
                    _ => false,
                },
            }
        }
    }

    /// What `space` contributes to a union: nothing when empty, its members when
    /// it is a union, itself otherwise.
    pub open spec fn union_contribution(self, space: Space<T, E>) -> Seq<Space<T, E>> {
        if space@ == 0 {
            Seq::empty()
        } else if self.node(space) is Union {
            union_members(self.node(space))
        } else {
            seq![space]
        }
    }

    /// The flattened members of the union of `spaces`, in order.
    pub open spec fn union_member_list(self, spaces: Seq<Space<T, E>>) -> Seq<Space<T, E>>
        decreases spaces.len(),
    {
        if spaces.len() == 0 {
            Seq::empty()
        } else {
            self.union_member_list(spaces.drop_last()) + self.union_contribution(spaces.last())
        }
    }

    /// Empty spaces contribute no member to a union.
    pub proof fn lemma_union_member_list_of_empties(self, spaces: Seq<Space<T, E>>)
        requires
            forall|j: int| 0 <= j < spaces.len() ==> (#[trigger] spaces[j])@ == 0,
        ensures
            self.union_member_list(spaces).len() == 0,
        decreases spaces.len(),
    {
        if spaces.len() > 0 {
            self.lemma_union_member_list_of_empties(spaces.drop_last());
        }
    }

    /// The flattened members of valid spaces are not empty, and there is one
    /// at least when one of the spaces is not empty.
    pub proof fn lemma_union_member_list_nonempty(self, spaces: Seq<Space<T, E>>)
        requires
            self.wf(),
            forall|j: int| 0 <= j < spaces.len() ==> self.valid_space(#[trigger] spaces[j]),
        ensures
            forall|j: int| 0 <= j < self.union_member_list(spaces).len() ==> (#[trigger] self.union_member_list(spaces)[j])@ != 0,
            (exists|j: int| 0 <= j < spaces.len() && (#[trigger] spaces[j])@ != 0) ==> self.union_member_list(spaces).len() >= 1,
        decreases spaces.len(),
    {
        if spaces.len() > 0 {
            let init = spaces.drop_last();
            let last = spaces.last();
            self.lemma_union_member_list_nonempty(init);
            let contribution = self.union_contribution(last);
            if last@ != 0 && self.node(last) is Union {
                assert(self.node_ok(self.nodes()[last@ - 1], last@ - 1));
            }
            assert forall|j: int| 0 <= j < self.union_member_list(spaces).len() implies (#[trigger] self.union_member_list(
                spaces,
            )[j])@ != 0 by {
                if j >= self.union_member_list(init).len() {
                    assert(self.union_member_list(spaces)[j] == contribution[j - self.union_member_list(init).len()]);
                } else {
                    assert(self.union_member_list(spaces)[j] == self.union_member_list(init)[j]);
                }
            }
            if exists|j: int| 0 <= j < spaces.len() && (#[trigger] spaces[j])@ != 0 {
                let j = choose|j: int| 0 <= j < spaces.len() && (#[trigger] spaces[j])@ != 0;
                if j < spaces.len() - 1 {
                    assert(init[j] == spaces[j]);
                }
            }
        }
    }

    /// `result` is the union of the flattened member list `members`: empty for
    /// no member, the member itself for one, a union node of exactly these
    /// members otherwise.
    pub open spec fn is_union_of(self, result: Space<T, E>, members: Seq<Space<T, E>>) -> bool {
        &&& self.valid_space(result)
        &&& members.len() == 0 ==> result@ == 0
        &&& members.len() == 1 ==> result == members[0]
        &&& members.len() >= 2 ==> result@ != 0 && self.node(result) is Union && union_members(
            self.node(result),
        ) == members
    }

    /// Growing a context is transitive.
    pub proof fn lemma_extends_trans(c: Self, b: Self, a: Self)
        requires
            c.extends(b),
            b.extends(a),
        ensures
            c.extends(a),
    {
        assert forall|i: int| 0 <= i < a.nodes().len() implies #[trigger] c.nodes()[i] == a.nodes()[i] by {
            assert(c.nodes()[i] == b.nodes()[i]);
        }
        assert forall|k: TI::Key| #[trigger] a.type_interner().valid_key(k) implies c.type_interner().valid_key(k)
            && c.type_interner().item(k) == a.type_interner().item(k) by {
            assert(b.type_interner().valid_key(k));
        }
        assert forall|k: EI::Key| #[trigger] a.extractor_interner().valid_key(k) implies c.extractor_interner().valid_key(k)
            && c.extractor_interner().item(k) == a.extractor_interner().item(k) by {
            assert(b.extractor_interner().valid_key(k));
        }
    }

    /// Growing a context keeps what valid spaces contribute to a union.
    pub proof fn lemma_union_member_list_extends(self, prev: Self, spaces: Seq<Space<T, E>>)
        requires
            self.extends(prev),
            forall|i: int| 0 <= i < spaces.len() ==> prev.valid_space(#[trigger] spaces[i]),
        ensures
            self.union_member_list(spaces) == prev.union_member_list(spaces),
        decreases spaces.len(),
    {
        if spaces.len() > 0 {
            let front = spaces.drop_last();
            assert forall|i: int| 0 <= i < front.len() implies prev.valid_space(#[trigger] front[i]) by {
                assert(front[i] == spaces[i]);
            }
            self.lemma_union_member_list_extends(prev, front);
            let last = spaces.last();
            assert(prev.valid_space(spaces[spaces.len() - 1]));
            if last@ != 0 {
                assert(self.nodes()[last@ - 1] == prev.nodes()[last@ - 1]);
            }
        }
    }

    /// Growing a context keeps a union what it is.
    pub proof fn lemma_is_union_of_extends(self, prev: Self, result: Space<T, E>, members: Seq<Space<T, E>>)
        requires
            self.extends(prev),
            prev.is_union_of(result, members),
        ensures
            self.is_union_of(result, members),
    {
        if result@ != 0 {
            assert(self.nodes()[result@ - 1] == prev.nodes()[result@ - 1]);
        }
    }

    /// Growing a context keeps a member list usable.
    pub proof fn lemma_member_list_extends(self, prev: Self, members: Seq<Space<T, E>>)
        requires
            self.extends(prev),
            prev.member_list_ok(members),
        ensures
            self.member_list_ok(members),
    {
        assert forall|j: int| 0 <= j < members.len() implies 1 <= #[trigger] members[j]@ <= self.nodes().len() && !(
            self.nodes()[members[j]@ - 1] is Union) by {
            assert(self.nodes()[members[j]@ - 1] == prev.nodes()[members[j]@ - 1]);
        }
    }

    /// A node may be stored: all its spaces are valid and its keys valid.
    proof fn lemma_wf_extends(self, prev: Self)
        requires
            prev.wf(),
            self.extends(prev),
            forall|i: int| prev.nodes().len() <= i < self.nodes().len() ==> self.node_ok(#[trigger] self.nodes()[i], i),
            self.unions_distinct(),
            self.nodes_distinct(),
        ensures
            self.wf(),
    {
        assert forall|i: int| 0 <= i < self.nodes().len() implies self.node_ok(#[trigger] self.nodes()[i], i) by {
            if i < prev.nodes().len() {
                assert(prev.node_ok(prev.nodes()[i], i));
                match self.nodes()[i] {
                    SpaceNode::Type { value_type, .. } => {
                        assert(prev.type_interner().valid_key(value_type));
                    },
                    SpaceNode::Product { value_type, extractor, parameters } => {
                        assert(prev.type_interner().valid_key(value_type));
                        assert(prev.extractor_interner().valid_key(extractor));
                    },
                    SpaceNode::Union(members) => {
                        assert forall|j: int| 0 <= j < members@.len() implies 1 <= #[trigger] members@[j]@ <= i
                            && !(self.nodes()[members@[j]@ - 1] is Union) by {
                            assert(self.nodes()[members@[j]@ - 1] == prev.nodes()[members@[j]@ - 1]);
                        }
                    },
                }
            }
        }
    }

    /// Creates a context from explicit type and extractor interners.
    pub fn with_interners(type_interner: TI, extractor_interner: EI) -> (context: Self)
        ensures
            context.wf(),
            context.nodes().len() == 0,
            context.type_interner() == type_interner,
            context.extractor_interner() == extractor_interner,
    {
        SpaceContext { types: type_interner, extractors: extractor_interner, nodes: Vec::new() }
    }

    /// Returns the empty space for this context.
    pub fn empty(&self) -> (space: Space<T, E>)
        ensures
            space@ == 0,
    {
        Space::empty()
    }

    /// Returns a resolved view of a space.
    ///
    /// Every non-empty space handed to it must name a node of this context.
    pub fn kind(&self, space: Space<T, E>) -> (kind: SpaceKind<'_, T, E>)
        requires
            self.wf(),
            self.valid_space(space),
        ensures
            self.describes(space, kind),
    {
        match self.try_kind(space) {
            Ok(kind) => kind,
            Err(_) => SpaceKind::Empty,
        }
    }

    /// Returns a resolved view of a space, or an error for a non-empty id that
    /// names no node of this context.
    pub fn try_kind(&self, space: Space<T, E>) -> (kind: Result<SpaceKind<'_, T, E>, SpaceLookupError>)
        requires
            self.wf(),
        ensures
            kind is Err <==> !self.valid_space(space),
            kind matches Ok(k) ==> self.describes(space, k),
    {
        match self.lookup_node(space) {
            Err(error) => Err(error),
            Ok(None) => Ok(SpaceKind::Empty),
            Ok(Some(node)) => {
                proof {
                    assert(self.node_ok(self.nodes()[space@ - 1], space@ - 1));
                }
                match node {
                    SpaceNode::Type { value_type, introduced_by_decomposition } => Ok(
                        SpaceKind::Type(
                            TypeSpace {
                                value_type: self.types.get(value_type),
                                introduced_by_decomposition: *introduced_by_decomposition,
                            },
                        ),
                    ),
                    SpaceNode::Product { value_type, extractor, parameters } => Ok(
                        SpaceKind::Product(
                            ProductSpace {
                                value_type: self.types.get(value_type),
                                extractor: self.extractors.get(extractor),
                                parameters: parameters.as_slice(),
                            },
                        ),
                    ),
                    SpaceNode::Union(members) => Ok(SpaceKind::Union(members.as_slice())),
                }
            },
        }
    }

    /// Returns a type space that may be decomposed by the engine.
    pub fn of_type(&mut self, value_type: T) -> (space: Space<T, E>)
        requires
            old(self).wf(),
        ensures
            old(self).keys_distinct() ==> final(self).keys_distinct(),
            final(self).wf(),
            final(self).extends(*old(self)),
            final(self).valid_space(space),
            space@ != 0,
            final(self).node(space) matches SpaceNode::Type { value_type: key, introduced_by_decomposition }
                && introduced_by_decomposition
                && exists|interned: TI::Key| #![trigger final(self).type_interner().valid_key(interned)] {
                    &&& final(self).type_interner().valid_key(interned)
                    &&& final(self).type_interner().item(interned) == value_type || (old(self).type_interner().valid_key(interned)
                        && (T::obeys_eq_spec() ==> final(self).type_interner().item(interned).eq_spec(&value_type)))
                    &&& key == interned || (TI::Key::obeys_eq_spec() ==> key.eq_spec(&interned))
                },
    {
        let ghost value = value_type;
        let key = self.intern_type_value(value_type);
        let ghost after_intern = *self;
        let space = self.intern_type_key(key, true);
        proof {
            assert(self.type_interner() == after_intern.type_interner());
            let k = self.node(space)->Type_value_type;
            assert(self.type_interner().valid_key(key));
            assert(self.type_interner().item(key) == value || (old(self).type_interner().valid_key(key)
                && (T::obeys_eq_spec() ==> self.type_interner().item(key).eq_spec(&value))));
            assert(k == key || (TI::Key::obeys_eq_spec() ==> k.eq_spec(&key)));
        }
        space
    }

    /// Returns a type space marked as coming from a direct pattern or diagnostic.
    pub fn atomic_type(&mut self, value_type: T) -> (space: Space<T, E>)
        requires
            old(self).wf(),
        ensures
            old(self).keys_distinct() ==> final(self).keys_distinct(),
            final(self).wf(),
            final(self).extends(*old(self)),
            final(self).valid_space(space),
            space@ != 0,
            final(self).node(space) matches SpaceNode::Type { value_type: key, introduced_by_decomposition }
                && !introduced_by_decomposition
                && exists|interned: TI::Key| #![trigger final(self).type_interner().valid_key(interned)] {
                    &&& final(self).type_interner().valid_key(interned)
                    &&& final(self).type_interner().item(interned) == value_type || (old(self).type_interner().valid_key(interned)
                        && (T::obeys_eq_spec() ==> final(self).type_interner().item(interned).eq_spec(&value_type)))
                    &&& key == interned || (TI::Key::obeys_eq_spec() ==> key.eq_spec(&interned))
                },
    {
        let ghost value = value_type;
        let key = self.intern_type_value(value_type);
        let ghost after_intern = *self;
        let space = self.intern_type_key(key, false);
        proof {
            assert(self.type_interner() == after_intern.type_interner());
            let k = self.node(space)->Type_value_type;
            assert(self.type_interner().valid_key(key));
            assert(self.type_interner().item(key) == value || (old(self).type_interner().valid_key(key)
                && (T::obeys_eq_spec() ==> self.type_interner().item(key).eq_spec(&value))));
            assert(k == key || (TI::Key::obeys_eq_spec() ==> k.eq_spec(&key)));
        }
        space
    }

    /// Returns a product space for an extractor or constructor pattern.
    pub fn product(&mut self, value_type: T, extractor: E, parameters: Vec<Space<T, E>>) -> (space:
        Space<T, E>)
        requires
            old(self).wf(),
            forall|i: int| 0 <= i < parameters@.len() ==> old(self).valid_space(#[trigger] parameters@[i]),
        ensures
            old(self).keys_distinct() ==> final(self).keys_distinct(),
            final(self).wf(),
            final(self).extends(*old(self)),
            final(self).valid_space(space),
            space@ != 0,
            final(self).node(space) is Product,
            product_parameters(final(self).node(space)) == parameters@,
            final(self).node(space) matches SpaceNode::Product { value_type: key, extractor: extractor_key, .. }
                && exists|interned: TI::Key| #![trigger final(self).type_interner().valid_key(interned)] {
                    &&& final(self).type_interner().valid_key(interned)
                    &&& final(self).type_interner().item(interned) == value_type || (old(self).type_interner().valid_key(interned)
                        && (T::obeys_eq_spec() ==> final(self).type_interner().item(interned).eq_spec(&value_type)))
                    &&& key == interned || (TI::Key::obeys_eq_spec() ==> key.eq_spec(&interned))
                }
                && exists|interned: EI::Key| #![trigger final(self).extractor_interner().valid_key(interned)] {
                    &&& final(self).extractor_interner().valid_key(interned)
                    &&& final(self).extractor_interner().item(interned) == extractor || (old(self).extractor_interner().valid_key(interned)
                        && (E::obeys_eq_spec() ==> final(self).extractor_interner().item(interned).eq_spec(&extractor)))
                    &&& extractor_key == interned || (EI::Key::obeys_eq_spec() ==> extractor_key.eq_spec(&interned))
                },
    {
        let ghost value = value_type;
        let ghost ext = extractor;
        let value_type_key = self.intern_type_value(value_type);
        let ghost after_type = *self;
        let extractor_key = self.intern_extractor_value(extractor);
        let ghost after_extractor = *self;
        let space = self.intern_product_keys(value_type_key, extractor_key, parameters);
        proof {
            assert(self.type_interner() == after_extractor.type_interner());
            assert(after_extractor.type_interner() == after_type.type_interner());
            assert(self.extractor_interner() == after_extractor.extractor_interner());
            assert(self.type_interner().valid_key(value_type_key));
            assert(self.extractor_interner().valid_key(extractor_key));
            assert(self.type_interner().item(value_type_key) == value || (old(self).type_interner().valid_key(value_type_key)
                && (T::obeys_eq_spec() ==> self.type_interner().item(value_type_key).eq_spec(&value))));
            assert(self.extractor_interner().item(extractor_key) == ext || (after_type.extractor_interner().valid_key(extractor_key)
                && (E::obeys_eq_spec() ==> self.extractor_interner().item(extractor_key).eq_spec(&ext))));
            assert(after_type.extractor_interner() == old(self).extractor_interner());
        }
        space
    }

    /// Returns the union of all spaces given.
    ///
    /// Nested unions are flattened into their members and empty spaces are
    /// dropped; no member leaves the empty space, and one member leaves that
    /// member itself.
    pub fn union(&mut self, spaces: Vec<Space<T, E>>) -> (space: Space<T, E>)
        requires
            old(self).wf(),
            forall|i: int| 0 <= i < spaces@.len() ==> old(self).valid_space(#[trigger] spaces@[i]),
        ensures
            final(self).wf(),
            final(self).extends(*old(self)),
            final(self).type_interner() == old(self).type_interner(),
            final(self).extractor_interner() == old(self).extractor_interner(),
            final(self).is_union_of(space, old(self).union_member_list(spaces@)),
            (exists|existing: Space<T, E>| #[trigger] old(self).is_union_of(existing, old(self).union_member_list(spaces@)))
                ==> final(self).nodes() == old(self).nodes(),
    {
        let mut members: Vec<Space<T, E>> = Vec::new();
        let mut i: usize = 0;
        while i < spaces.len()
            invariant
                self.wf(),
                i <= spaces@.len(),
                forall|j: int| 0 <= j < spaces@.len() ==> self.valid_space(#[trigger] spaces@[j]),
                members@ == self.union_member_list(spaces@.take(i as int)),
                self.member_list_ok(members@),
            decreases spaces@.len() - i,
        {
            proof {
                assert(spaces@.take(i + 1).drop_last() =~= spaces@.take(i as int));
            }
            self.extend_union_members(&mut members, spaces[i]);
            i = i + 1;
        }
        proof {
            assert(spaces@.take(spaces@.len() as int) =~= spaces@);
        }
        self.union_from_members(members)
    }

    /// Every space of `members` may be a member of a new union node.
    pub open spec fn member_list_ok(self, members: Seq<Space<T, E>>) -> bool {
        forall|j: int|
            0 <= j < members.len() ==> 1 <= #[trigger] members[j]@ <= self.nodes().len() && !(
            self.nodes()[members[j]@ - 1] is Union)
    }

    fn lookup_node(&self, space: Space<T, E>) -> (node: Result<
        Option<&SpaceNode<T, E, TI::Key, EI::Key>>,
        SpaceLookupError,
    >)
        ensures
            node is Err <==> !self.valid_space(space),
            node matches Ok(n) ==> (space@ == 0 <==> n is None),
            node matches Ok(Some(n)) ==> *n == self.node(space),
    {
        match space.node_index() {
            None => Ok(None),
            Some(index) => {
                if index < self.nodes.len() {
                    Ok(Some(&self.nodes[index]))
                } else {
                    Err(SpaceLookupError)
                }
            },
        }
    }

    /// The node named by a valid space; `None` for the empty space.
    pub(crate) fn node_ref(&self, space: Space<T, E>) -> (node: Option<
        &SpaceNode<T, E, TI::Key, EI::Key>,
    >)
        requires
            self.valid_space(space),
        ensures
            space@ == 0 <==> node is None,
            node matches Some(n) ==> *n == self.node(space),
    {
        match self.lookup_node(space) {
            Ok(node) => node,
            Err(_) => None,
        }
    }

    pub(crate) fn type_by_key<'a>(&'a self, key: &'a TI::Key) -> (item: &'a T)
        requires
            self.type_interner().valid_key(*key),
        ensures
            *item == self.type_interner().item(*key),
    {
        self.types.get(key)
    }

    pub(crate) fn extractor_by_key<'a>(&'a self, key: &'a EI::Key) -> (item: &'a E)
        requires
            self.extractor_interner().valid_key(*key),
        ensures
            *item == self.extractor_interner().item(*key),
    {
        self.extractors.get(key)
    }

    pub(crate) fn intern_type_value(&mut self, value_type: T) -> (key: TI::Key)
        requires
            old(self).wf(),
        ensures
            old(self).keys_distinct() ==> final(self).keys_distinct(),
            final(self).wf(),
            final(self).extends(*old(self)),
            final(self).nodes() == old(self).nodes(),
            final(self).extractor_interner() == old(self).extractor_interner(),
            final(self).type_interner().valid_key(key),
            final(self).type_interner().item(key) == value_type || (old(self).type_interner().valid_key(key) && (
            T::obeys_eq_spec() ==> final(self).type_interner().item(key).eq_spec(&value_type))),
    {
        let ghost prev = *self;
        let key = self.types.intern(value_type);
        proof {
            self.lemma_wf_extends(prev);
        }
        key
    }

    fn intern_extractor_value(&mut self, extractor: E) -> (key: EI::Key)
        requires
            old(self).wf(),
        ensures
            old(self).keys_distinct() ==> final(self).keys_distinct(),
            final(self).wf(),
            final(self).extends(*old(self)),
            final(self).nodes() == old(self).nodes(),
            final(self).type_interner() == old(self).type_interner(),
            final(self).extractor_interner().valid_key(key),
            final(self).extractor_interner().item(key) == extractor || (old(self).extractor_interner().valid_key(key)
                && (E::obeys_eq_spec() ==> final(self).extractor_interner().item(key).eq_spec(&extractor))),
    {
        let ghost prev = *self;
        let key = self.extractors.intern(extractor);
        proof {
            self.lemma_wf_extends(prev);
        }
        key
    }

    pub(crate) fn intern_type_key(&mut self, value_type_key: TI::Key, introduced_by_decomposition: bool) -> (space: Space<T, E>)
        requires
            old(self).wf(),
            old(self).type_interner().valid_key(value_type_key),
        ensures
            final(self).wf(),
            final(self).extends(*old(self)),
            final(self).type_interner() == old(self).type_interner(),
            final(self).extractor_interner() == old(self).extractor_interner(),
            final(self).valid_space(space),
            space@ != 0,
            final(self).node(space) matches SpaceNode::Type { value_type: key, introduced_by_decomposition: d }
                && d == introduced_by_decomposition
                && final(self).type_interner().valid_key(key)
                && (key == value_type_key || (TI::Key::obeys_eq_spec() ==> key.eq_spec(&value_type_key))),
    {
        self.intern_node(SpaceNode::Type { value_type: value_type_key, introduced_by_decomposition })
    }

    pub(crate) fn intern_product_keys(
        &mut self,
        value_type_key: TI::Key,
        extractor: EI::Key,
        parameters: Vec<Space<T, E>>,
    ) -> (space: Space<T, E>)
        requires
            old(self).wf(),
            old(self).type_interner().valid_key(value_type_key),
            old(self).extractor_interner().valid_key(extractor),
            forall|i: int| 0 <= i < parameters@.len() ==> old(self).valid_space(#[trigger] parameters@[i]),
        ensures
            final(self).wf(),
            final(self).extends(*old(self)),
            final(self).type_interner() == old(self).type_interner(),
            final(self).extractor_interner() == old(self).extractor_interner(),
            final(self).valid_space(space),
            space@ != 0,
            final(self).node(space) matches SpaceNode::Product { value_type: k, extractor: x, .. }
                && (k == value_type_key || (TI::Key::obeys_eq_spec() ==> k.eq_spec(&value_type_key)))
                && (x == extractor || (EI::Key::obeys_eq_spec() ==> x.eq_spec(&extractor))),
            product_parameters(final(self).node(space)) == parameters@,
    {
        self.intern_node(SpaceNode::Product { value_type: value_type_key, extractor, parameters })
    }

    /// Structural equality of nodes, keys compared with `==`.
    fn node_eq(a: &SpaceNode<T, E, TI::Key, EI::Key>, b: &SpaceNode<T, E, TI::Key, EI::Key>) -> (same: bool)
        ensures
            (TI::Key::obeys_eq_spec() && EI::Key::obeys_eq_spec()) ==> same == same_node(*a, *b),
            same ==> (a is Union <==> b is Union),
            same ==> (a is Product <==> b is Product),
            same ==> product_parameters(*a) == product_parameters(*b),
            same ==> match (*a, *b) {
                (
                    SpaceNode::Type { value_type: k1, introduced_by_decomposition: d1 },
                    SpaceNode::Type { value_type: k2, introduced_by_decomposition: d2 },
                ) => d1 == d2 && (TI::Key::obeys_eq_spec() ==> k1.eq_spec(&k2)),
                (SpaceNode::Type { .. }, _) => false,
                (
                    SpaceNode::Product { value_type: k1, extractor: e1, .. },
                    SpaceNode::Product { value_type: k2, extractor: e2, .. },
                ) => (TI::Key::obeys_eq_spec() ==> k1.eq_spec(&k2)) && (EI::Key::obeys_eq_spec() ==> e1.eq_spec(&e2)),
                _ => true,
            },
            (a is Union && b is Union) ==> (same <==> union_members(*a) == union_members(*b)),
    {
        match (a, b) {
            (
                SpaceNode::Type { value_type: k1, introduced_by_decomposition: d1 },
                SpaceNode::Type { value_type: k2, introduced_by_decomposition: d2 },
            ) => *d1 == *d2 && *k1 == *k2,
            (
                SpaceNode::Product { value_type: k1, extractor: e1, parameters: p1 },
                SpaceNode::Product { value_type: k2, extractor: e2, parameters: p2 },
            ) => Self::same_spaces(p1, p2) && *k1 == *k2 && *e1 == *e2,
            (SpaceNode::Union(m1), SpaceNode::Union(m2)) => Self::same_spaces(m1, m2),
            _ => false,
        }
    }

    fn same_spaces(a: &Vec<Space<T, E>>, b: &Vec<Space<T, E>>) -> (same: bool)
        ensures
            same == (a@ == b@),
    {
        if a.len() != b.len() {
            return false;
        }
        let mut i: usize = 0;
        while i < a.len()
            invariant
                i <= a@.len(),
                a@.len() == b@.len(),
                forall|j: int| 0 <= j < i ==> a@[j] == b@[j],
            decreases a@.len() - i,
        {
            if a[i].raw_id() != b[i].raw_id() {
                return false;
            }
            proof {
                Space::lemma_same_id(a@[i as int], b@[i as int]);
            }
            i = i + 1;
        }
        proof {
            assert(a@ =~= b@);
        }
        true
    }

    /// Stores `node`, or finds a node of the same shape that is already stored.
    fn intern_node(&mut self, node: SpaceNode<T, E, TI::Key, EI::Key>) -> (space: Space<T, E>)
        requires
            old(self).wf(),
            old(self).node_ok(node, old(self).nodes().len() as int),
        ensures
            final(self).wf(),
            final(self).extends(*old(self)),
            final(self).type_interner() == old(self).type_interner(),
            final(self).extractor_interner() == old(self).extractor_interner(),
            final(self).valid_space(space),
            space@ != 0,
            final(self).nodes() == old(self).nodes() || final(self).nodes() == old(self).nodes().push(node),
            final(self).nodes() == old(self).nodes().push(node) ==> space@ == final(self).nodes().len(),
            (exists|j: int|
                0 <= j < old(self).nodes().len() && (#[trigger] old(self).nodes()[j]) is Union && node is Union
                    && union_members(old(self).nodes()[j]) == union_members(node)) ==> final(self).nodes() == old(
                self,
            ).nodes(),
            (TI::Key::obeys_eq_spec() && EI::Key::obeys_eq_spec()) ==> (final(self).node(space) == node || same_node(final(self).node(space), node)),
            final(self).node(space) is Union <==> node is Union,
            final(self).node(space) is Product <==> node is Product,
            union_members(final(self).node(space)) == union_members(node),
            product_parameters(final(self).node(space)) == product_parameters(node),
            match (node, final(self).node(space)) {
                (
                    SpaceNode::Type { value_type: k1, introduced_by_decomposition: d1 },
                    SpaceNode::Type { value_type: k2, introduced_by_decomposition: d2 },
                ) => d1 == d2 && (k2 == k1 || (TI::Key::obeys_eq_spec() ==> k2.eq_spec(&k1))),
                (SpaceNode::Type { .. }, _) => false,
                (
                    SpaceNode::Product { value_type: k1, extractor: e1, .. },
                    SpaceNode::Product { value_type: k2, extractor: e2, .. },
                ) => (k2 == k1 || (TI::Key::obeys_eq_spec() ==> k2.eq_spec(&k1))) && (e2 == e1 || (
                EI::Key::obeys_eq_spec() ==> e2.eq_spec(&e1))),
                _ => true,
            },
    {
        let mut i: usize = 0;
        while i < self.nodes.len()
            invariant
                i <= self.nodes@.len(),
                *self == *old(self),
                self.wf(),
                self.node_ok(node, self.nodes().len() as int),
                forall|j: int|
                    0 <= j < i && (#[trigger] self.nodes()[j]) is Union && node is Union ==> union_members(
                        self.nodes()[j],
                    ) != union_members(node),
                (TI::Key::obeys_eq_spec() && EI::Key::obeys_eq_spec()) ==> forall|j: int|
                    0 <= j < i ==> !same_node(#[trigger] self.nodes()[j], node),
            decreases self.nodes@.len() - i,
        {
            if Self::node_eq(&self.nodes[i], &node) {
                return Space::from_node_index(i);
            }
            i = i + 1;
        }
        let ghost prev = *self;
        let index = self.nodes.len();
        self.nodes.push(node);
        let count = self.nodes.len();
        assert(count == index + 1);
        proof {
            assert(self.nodes()[index as int] == node);
            assert forall|k: int| 0 <= k < prev.nodes().len() implies #[trigger] self.nodes()[k] == prev.nodes()[k] by {}
            self.lemma_node_ok_frame(prev, node, index as int);
            assert forall|a: int, b: int|
                0 <= a < b < self.nodes().len() && (#[trigger] self.nodes()[a]) is Union && (
                #[trigger] self.nodes()[b]) is Union implies union_members(self.nodes()[a]) != union_members(
                self.nodes()[b],
            ) by {
                if b < index {
                    assert(prev.nodes()[a] == self.nodes()[a]);
                    assert(prev.nodes()[b] == self.nodes()[b]);
                } else {
                    assert(prev.nodes()[a] == self.nodes()[a]);
                }
            }
            if TI::Key::obeys_eq_spec() && EI::Key::obeys_eq_spec() {
                assert forall|a: int, b: int| 0 <= a < b < self.nodes().len() implies !same_node(
                    #[trigger] self.nodes()[a],
                    #[trigger] self.nodes()[b],
                ) by {
                    assert(prev.nodes()[a] == self.nodes()[a]);
                    if b < index {
                        assert(prev.nodes()[b] == self.nodes()[b]);
                    }
                }
            }
            self.lemma_wf_extends(prev);
        }
        Space::from_node_index(index)
    }

    proof fn lemma_node_ok_frame(self, prev: Self, node: SpaceNode<T, E, TI::Key, EI::Key>, index: int)
        requires
            prev.node_ok(node, index),
            index == prev.nodes().len(),
            self.nodes() == prev.nodes().push(node),
            self.type_interner() == prev.type_interner(),
            self.extractor_interner() == prev.extractor_interner(),
        ensures
            self.node_ok(node, index),
    {
        match node {
            SpaceNode::Union(members) => {
                assert forall|j: int| 0 <= j < members@.len() implies 1 <= #[trigger] members@[j]@ <= index
                    && !(self.nodes()[members@[j]@ - 1] is Union) by {
                    assert(self.nodes()[members@[j]@ - 1] == prev.nodes()[members@[j]@ - 1]);
                }
            },
            _ => {},
        }
    }

    /// Appends what `space` contributes to a union to `members`.
    pub(crate) fn extend_union_members(&self, members: &mut Vec<Space<T, E>>, space: Space<T, E>)
        requires
            self.wf(),
            self.valid_space(space),
            self.member_list_ok(old(members)@),
        ensures
            final(members)@ == old(members)@ + self.union_contribution(space),
            self.member_list_ok(final(members)@),
    {
        match self.node_ref(space) {
            None => {
                assert(old(members)@ + Seq::<Space<T, E>>::empty() =~= old(members)@);
            },
            Some(SpaceNode::Union(nested)) => {
                let ghost start = members@;
                proof {
                    assert(self.node_ok(self.nodes()[space@ - 1], space@ - 1));
                }
                let mut i: usize = 0;
                while i < nested.len()
                    invariant
                        self.wf(),
                        i <= nested@.len(),
                        self.node(space) is Union,
                        *nested == self.node(space) ->Union_0,
                        self.node_ok(self.node(space), space@ - 1),
                        1 <= space@ <= self.nodes().len(),
                        members@ == start + nested@.take(i as int),
                        self.member_list_ok(members@),
                    decreases nested@.len() - i,
                {
                    proof {
                        let m = (self.node(space)->Union_0)@[i as int];
                        assert(1 <= m@ <= space@ - 1 && !(self.nodes()[m@ - 1] is Union));
                    }
                    members.push(nested[i]);
                    proof {
                        assert(start + nested@.take(i + 1) =~= start + nested@.take(i as int) + seq![nested@[i as int]]);
                    }
                    i = i + 1;
                }
                proof {
                    assert(nested@.take(nested@.len() as int) =~= nested@);
                }
            },
            Some(_) => {
                members.push(space);
            },
        }
    }

    /// Builds the union of an already flattened member list.
    pub(crate) fn union_from_members(&mut self, members: Vec<Space<T, E>>) -> (space: Space<T, E>)
        requires
            old(self).wf(),
            old(self).member_list_ok(members@),
        ensures
            final(self).wf(),
            final(self).extends(*old(self)),
            final(self).type_interner() == old(self).type_interner(),
            final(self).extractor_interner() == old(self).extractor_interner(),
            final(self).is_union_of(space, members@),
            (exists|existing: Space<T, E>| #[trigger] old(self).is_union_of(existing, members@)) ==> final(self).nodes()
                == old(self).nodes(),
    {
        if members.len() == 0 {
            Space::empty()
        } else if members.len() == 1 {
            members[0]
        } else {
            let ghost m = members@;
            proof {
                if exists|existing: Space<T, E>| #[trigger] self.is_union_of(existing, m) {
                    let existing = choose|existing: Space<T, E>| #[trigger] self.is_union_of(existing, m);
                    let j = existing@ - 1;
                    assert(self.nodes()[j] is Union && union_members(self.nodes()[j]) == m);
                }
            }
            let space = self.intern_node(SpaceNode::Union(members));
            space
        }
    }

    /// The union of two spaces.
    pub(crate) fn union_pair(&mut self, left: Space<T, E>, right: Space<T, E>) -> (space: Space<T, E>)
        requires
            old(self).wf(),
            old(self).valid_space(left),
            old(self).valid_space(right),
        ensures
            final(self).wf(),
            final(self).extends(*old(self)),
            final(self).type_interner() == old(self).type_interner(),
            final(self).extractor_interner() == old(self).extractor_interner(),
            final(self).is_union_of(space, old(self).union_member_list(seq![left, right])),
    {
        proof {
            assert(seq![left, right].drop_last() =~= seq![left]);
            assert(seq![left].drop_last() =~= Seq::<Space<T, E>>::empty());
        }
        let mut members: Vec<Space<T, E>> = Vec::new();
        self.extend_union_members(&mut members, left);
        self.extend_union_members(&mut members, right);
        proof {
            assert(seq![left].drop_last() =~= Seq::<Space<T, E>>::empty());
            assert(self.union_member_list(Seq::<Space<T, E>>::empty()) == Seq::<Space<T, E>>::empty());
            assert(seq![left].last() == left);
            assert(seq![left, right].last() == right);
            assert(self.union_member_list(seq![left]) == self.union_member_list(Seq::<Space<T, E>>::empty()) + self.union_contribution(left));
            assert(self.union_member_list(seq![left]) =~= self.union_contribution(left));
            assert(members@ =~= self.union_member_list(seq![left, right]));
        }
        self.union_from_members(members)
    }
}

impl<T, E, TI, EI> SpaceContext<T, E, TI, EI> where
    T: Eq + std::hash::Hash,
    E: Eq + std::hash::Hash,
    TI: SpaceInterner<Item = T> + Default,
    EI: SpaceInterner<Item = E> + Default,
 {
    /// Creates a new empty context.
    pub fn new() -> (context: Self)
        ensures
            context.wf(),
            context.nodes().len() == 0,
    {
        Self::with_interners(TI::default(), EI::default())
    }
}

impl<T, E, TI, EI> Default for SpaceContext<T, E, TI, EI> where
    T: Eq + std::hash::Hash,
    E: Eq + std::hash::Hash,
    TI: SpaceInterner<Item = T> + Default,
    EI: SpaceInterner<Item = E> + Default,
 {
    fn default() -> (context: Self)
        ensures
            context.wf(),
            context.nodes().len() == 0,
    {
        Self::with_interners(TI::default(), EI::default())
    }
}

} // verus!
