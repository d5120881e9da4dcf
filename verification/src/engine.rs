use vstd::prelude::*;
use vstd::std_specs::cmp::PartialEqSpec;

use crate::cache::{
    space_flag_entries, space_pair_flags_get, space_pair_flags_insert, space_id_entries, space_id_map_get,
    space_id_map_insert, space_list_entries, space_list_map_get, space_list_map_insert,
    space_pair_entries, space_pair_map_get, space_pair_map_insert, SpaceCaches,
};
use crate::interner::{DedupInterner, SpaceInterner};
use crate::match_analysis::{analysis_ok, ends_with_catch_all, input_ok};
use crate::match_input::{MatchAnalysis, MatchInput};
use crate::operations::{AtomicIntersection, Decomposition, SpaceOperations};
use crate::space::{product_parameters, union_members, Space, SpaceContext, SpaceNode};

verus! {

/// An owned copy of what a node holds, taken so that the context can be
/// changed while the copy is in use.
pub(crate) enum NodeSnapshot<T, E, TK, EK> {
    Empty,
    Type { value_type: TK, introduced_by_decomposition: bool },
    Product { value_type: TK, extractor: EK, parameters: Vec<Space<T, E>> },
    Union(Vec<Space<T, E>>),
}

/// Memoized results: decompositions keyed by type key, and the results of
/// the space operations keyed by space ids.
#[verifier::reject_recursive_types(TK)]
pub(crate) struct TypeCaches<T, E, TK> {
    pub(crate) decompositions: Vec<(TK, Decomposition<TK>)>,
    pub(crate) decomposed_unions: Vec<(TK, Space<T, E>)>,
    pub(crate) memo: SpaceCaches,
}

/// Stateful engine for space algebra operations.
///
/// Every operation runs under a step budget, decremented on each recursive
/// step and set to `u64::MAX` when the engine is created: it bounds the
/// recursion so that it provably ends. When it is spent, an operation answers
/// conservatively (nothing subtracted, nothing simplified, not a subspace).
#[verifier::reject_recursive_types(O)]
#[verifier::reject_recursive_types(TI)]
#[verifier::reject_recursive_types(EI)]
pub struct SpaceEngine<
    'a,
    O: SpaceOperations,
    TI: SpaceInterner<Item = <O as SpaceOperations>::Type> = DedupInterner<
        <O as SpaceOperations>::Type,
    >,
    EI: SpaceInterner<Item = <O as SpaceOperations>::Extractor> = DedupInterner<
        <O as SpaceOperations>::Extractor,
    >,
> {
    pub(crate) operations: O,
    pub(crate) context: &'a mut SpaceContext<O::Type, O::Extractor, TI, EI>,
    pub(crate) caches: TypeCaches<O::Type, O::Extractor, TI::Key>,
    pub(crate) budget: u64,
}

/// Checks a match expression without explicitly constructing a [`SpaceEngine`].
pub fn check_match<'a, O, TI, EI>(
    operations: O,
    context: &'a mut SpaceContext<O::Type, O::Extractor, TI, EI>,
    match_input: &MatchInput<O::Type, O::Extractor>,
) -> (analysis: MatchAnalysis<O::Type, O::Extractor>) where
    O: SpaceOperations,
    TI: SpaceInterner<Item = O::Type>,
    EI: SpaceInterner<Item = O::Extractor>,

    requires
        old(context).wf(),
        input_ok(*old(context), *match_input),
    ensures
        analysis_ok(*match_input, analysis),
        ends_with_catch_all(*match_input) ==> analysis.uncovered_spaces@.len() == 0,
        exists|engine: SpaceEngine<'a, O, TI, EI>|
            #[trigger] engine.analysis_agrees(*match_input, analysis) && engine.wf() && engine.ops() == operations
                && engine.ctx().extends(*old(context)),
{
    let mut engine = SpaceEngine::new(operations, context);
    let analysis = engine.analyze_match(match_input);
    proof {
        assert(engine.analysis_agrees(*match_input, analysis));
    }
    analysis
}

/// Two decompositions have the same shape: both not decomposable, both empty,
/// or both made of the same number of parts.
pub open spec fn same_shape<A, B>(first: Decomposition<A>, second: Decomposition<B>) -> bool {
    match (first, second) {
        (Decomposition::NotDecomposable, Decomposition::NotDecomposable) => true,
        (Decomposition::Empty, Decomposition::Empty) => true,
        (Decomposition::Parts(a), Decomposition::Parts(b)) => a@.len() == b@.len(),
        _ => false,
    }
}

/// Each prefix of `prefixes` extended by each of `options`: prefix by
/// prefix, and for one prefix option by option.
pub open spec fn extend_each<A>(prefixes: Seq<Seq<A>>, options: Seq<A>) -> Seq<Seq<A>>
    decreases prefixes.len(),
{
    if prefixes.len() == 0 {
        Seq::empty()
    } else {
        extend_each(prefixes.drop_last(), options) + options.map_values(|option: A| prefixes.last().push(option))
    }
}

/// Every way of picking one of `options[0]`, then one of `options[1]`, and so
/// on, the first pick varying slowest.
pub open spec fn combinations_of<A>(options: Seq<Seq<A>>) -> Seq<Seq<A>>
    decreases options.len(),
{
    if options.len() == 0 {
        seq![Seq::empty()]
    } else {
        extend_each(combinations_of(options.drop_last()), options.last())
    }
}

/// The slots and pieces of `pieces`, slot by slot: `(p, x)` for each piece
/// `x` of `pieces[p]`.
pub open spec fn slot_list<A>(pieces: Seq<Seq<A>>) -> Seq<(int, A)>
    decreases pieces.len(),
{
    if pieces.len() == 0 {
        Seq::empty()
    } else {
        slot_list(pieces.drop_last()) + pieces.last().map_values(|piece: A| ((pieces.len() - 1) as int, piece))
    }
}

/// The contents of each list.
pub open spec fn list_views<A>(lists: Seq<Vec<A>>) -> Seq<Seq<A>> {
    lists.map_values(|list: Vec<A>| list@)
}

/// The ids of the spaces, in order.
pub open spec fn spaces_view<T, E>(spaces: Seq<Space<T, E>>) -> Seq<nat> {
    spaces.map_values(|space: Space<T, E>| space@)
}

impl<'a, O, TI, EI> SpaceEngine<'a, O, TI, EI> where
    O: SpaceOperations,
    TI: SpaceInterner<Item = O::Type>,
    EI: SpaceInterner<Item = O::Extractor>,
 {
    /// The context the engine works in.
    pub closed spec fn ctx(self) -> SpaceContext<O::Type, O::Extractor, TI, EI> {
        *self.context
    }

    /// The operations the engine asks.
    pub closed spec fn ops(self) -> O {
        self.operations
    }

    /// The steps left in the budget.
    pub closed spec fn steps(self) -> u64 {
        self.budget
    }

    /// The simplification of `space` that the engine has remembered, if any.
    pub closed spec fn remembered_simplification(self, space: Space<O::Type, O::Extractor>) -> Option<nat> {
        let simplified = space_id_entries(self.caches.memo.simplified_spaces);
        if simplified.contains_key(space@ as usize) {
            Some(simplified[space@ as usize] as nat)
        } else {
            None
        }
    }

    /// Where the keys' `==` is specified: the operations' decomposition of the
    /// type of a clone of `key` is `Empty` exactly when `uninhabited`.
    pub closed spec fn decided_uninhabited(self, key: TI::Key, uninhabited: bool) -> bool {
        TI::Key::obeys_eq_spec() ==> exists|copy: TI::Key, decomposition: Decomposition<TI::Key>|
            cloned::<TI::Key>(key, copy) && #[trigger] self.decomposes_as(copy, decomposition)
                && (decomposition is Empty) == uninhabited
    }

    /// Simplifying the parameters of the product `space` gives `result`: the
    /// empty space when a parameter simplifies to it; `space` itself when no
    /// parameter changes; otherwise a product of the simplified parameters.
    pub closed spec fn parameters_simplify_to(self, space: Space<O::Type, O::Extractor>, parameters: Seq<Space<O::Type, O::Extractor>>, result: Space<O::Type, O::Extractor>) -> bool {
        ||| result@ == 0 && exists|j: int|
            0 <= j < parameters.len() && #[trigger] self.remembered_simplification(parameters[j]) == Some(0nat)
        ||| {
            &&& forall|j: int|
                0 <= j < parameters.len() ==> #[trigger] self.remembered_simplification(parameters[j]) is Some
                    && self.remembered_simplification(parameters[j]) != Some(0nat)
            &&& (forall|j: int|
                0 <= j < parameters.len() ==> #[trigger] self.remembered_simplification(parameters[j]) == Some(
                    parameters[j]@,
                )) ==> result == space
            &&& !(forall|j: int|
                0 <= j < parameters.len() ==> #[trigger] self.remembered_simplification(parameters[j]) == Some(
                    parameters[j]@,
                )) ==> {
                &&& result@ != 0
                &&& self.ctx().node(result) is Product
                &&& product_parameters(self.ctx().node(result)).len() == parameters.len()
                &&& forall|j: int|
                    0 <= j < parameters.len() ==> Some((#[trigger] product_parameters(self.ctx().node(result))[j])@)
                        == self.remembered_simplification(parameters[j])
            }
        }
    }

    /// Simplifying the members of a union gives `result`: the union of the
    /// simplified members.
    pub closed spec fn members_simplify_to(self, members: Seq<Space<O::Type, O::Extractor>>, result: Space<O::Type, O::Extractor>) -> bool {
        exists|simplified: Seq<Space<O::Type, O::Extractor>>|
            #![trigger self.ctx().union_member_list(simplified)]
            simplified.len() == members.len() && (forall|j: int|
                0 <= j < members.len() ==> self.remembered_simplification(members[j]) == Some((#[trigger] simplified[j])@))
                && self.ctx().is_union_of(result, self.ctx().union_member_list(simplified))
    }

    /// `result` is what simplifying `space` gives, the simplifications of its
    /// parts being those the engine remembers: the empty space stays empty; a
    /// type space is dropped exactly when the operations decompose its type as
    /// `Empty`; a product is dropped when its type is empty or a parameter
    /// simplifies to empty, and otherwise keeps or rebuilds its parameters; a
    /// union becomes the union of its simplified members.
    pub closed spec fn simplifies_to(self, space: Space<O::Type, O::Extractor>, result: Space<O::Type, O::Extractor>) -> bool {
        if space@ == 0 {
            result@ == 0
        } else {
            match self.ctx().node(space) {
                SpaceNode::Type { value_type, .. } => (result@ == 0 && self.decided_uninhabited(value_type, true)) || (
                result == space && self.decided_uninhabited(value_type, false)),
                SpaceNode::Product { value_type, parameters, .. } => (result@ == 0 && self.decided_uninhabited(value_type, true))
                    || (self.decided_uninhabited(value_type, false) && self.parameters_simplify_to(space, parameters@, result)),
                SpaceNode::Union(members) => self.members_simplify_to(members@, result),
            }
        }
    }

    /// Whether the engine has remembered `left` to be a subspace of `right`, if
    /// it has remembered an answer.
    pub closed spec fn remembered_subspace(self, left: Space<O::Type, O::Extractor>, right: Space<O::Type, O::Extractor>) -> Option<bool> {
        let answers = space_flag_entries(self.caches.memo.subspace_results);
        let key = (left@ as usize, right@ as usize);
        if answers.contains_key(key) {
            Some(answers[key])
        } else {
            None
        }
    }

    /// What the engine answers to whether `left` is a subspace of `right`, once
    /// it has simplified both: an empty simplification is a subspace of
    /// anything and a simplification of itself; a non-empty one is no subspace
    /// of the empty space; otherwise the answer remembered for the two.
    pub closed spec fn answered_subspace(self, left: Space<O::Type, O::Extractor>, right: Space<O::Type, O::Extractor>) -> Option<bool> {
        match (self.remembered_simplification(left), self.remembered_simplification(right)) {
            (Some(l), Some(r)) => if l == 0 || l == r {
                Some(true)
            } else if r == 0 {
                Some(false)
            } else {
                self.remembered_subspace(Space::with_id(l), Space::with_id(r))
            },
            _ => None,
        }
    }

    /// The answer `subspace` for two distinct non-empty spaces agrees with the
    /// operations and with the engine's other answers: a union is a subspace
    /// when every member is, and otherwise some member is not; a type space
    /// that is no subspace of a union is no subspace of any of its members; a
    /// type space of a subtype is a subspace of a type space, and otherwise
    /// only as a decomposition of either type answers, or as it lifts into a
    /// product it meets; a product is a
    /// subspace of a type space exactly when the operations find its type a
    /// subtype; a product is a subspace of a product only when both have the
    /// same arity, equivalent extractors and every parameter is a subspace of
    /// the other's, and otherwise one of these fails; a product is a subspace
    /// of a union exactly when what is left of it once the union is subtracted
    /// simplifies to nothing.
    pub closed spec fn subspace_case_ok(self, left: Space<O::Type, O::Extractor>, right: Space<O::Type, O::Extractor>, subspace: bool) -> bool {
        match (self.ctx().node(left), self.ctx().node(right)) {
            (SpaceNode::Union(members), _) => {
                &&& subspace ==> forall|j: int|
                    0 <= j < members@.len() ==> #[trigger] self.answered_subspace(members@[j], right) == Some(true)
                &&& !subspace ==> exists|j: int|
                    0 <= j < members@.len() && #[trigger] self.answered_subspace(members@[j], right) == Some(false)
            },
            (SpaceNode::Type { value_type: kl, .. }, SpaceNode::Union(members)) => {
                &&& !subspace ==> forall|j: int|
                    0 <= j < members@.len() ==> #[trigger] self.answered_subspace(left, members@[j]) == Some(false)
                &&& TI::Key::obeys_eq_spec() && subspace ==> (exists|j: int|
                    0 <= j < members@.len() && #[trigger] self.answered_subspace(left, members@[j]) == Some(true)) || exists|
                    copy: TI::Key,
                    filtered: Space<O::Type, O::Extractor>,
                |
                    #![trigger cloned::<TI::Key>(kl, copy), self.filtered_to(copy, right, filtered)]
                    cloned::<TI::Key>(kl, copy) && self.filtered_to(copy, right, filtered) && filtered@ == 0
            },
            (SpaceNode::Type { value_type: kl, .. }, SpaceNode::Type { value_type: kr, .. }) => {
                &&& subspace || exists|cl: TI::Key, cr: TI::Key|
                    #![trigger cloned::<TI::Key>(kl, cl), cloned::<TI::Key>(kr, cr)]
                    cloned::<TI::Key>(kl, cl) && cloned::<TI::Key>(kr, cr) && self.ctx().type_interner().valid_key(cl)
                        && self.ctx().type_interner().valid_key(cr) && call_ensures(
                        O::is_subtype,
                        (&self.ops(), &self.ctx().type_interner().item(cl), &self.ctx().type_interner().item(cr)),
                        false,
                    )
                &&& subspace ==> self.subtype_answered(kl, kr, true) || (TI::Key::obeys_eq_spec() ==> self.type_decomposes(kl)
                    && self.left_decomposition_answers(kl, right, true) || self.type_decomposes(kr) && self.right_decomposition_answers(
                    left,
                    kr,
                    true,
                ))
            },
            (SpaceNode::Type { value_type: kl, .. }, SpaceNode::Product { value_type: kr, extractor: xr, parameters: pr }) => {
                &&& subspace ==> self.lifts_into(kl, kr, xr, pr@.len()) || (TI::Key::obeys_eq_spec() ==> self.type_decomposes(kl)
                    && self.left_decomposition_answers(kl, right, true))
                &&& !subspace ==> self.lifts_into(kl, kr, xr, pr@.len()) || self.cannot_lift(kl, kr, xr, pr@.len()) && (
                TI::Key::obeys_eq_spec() ==> self.type_undecomposable(kl) || self.left_decomposition_answers(kl, right, false))
            },
            (SpaceNode::Product { value_type: kl, .. }, SpaceNode::Type { value_type: kr, .. }) => exists|
                cl: TI::Key,
                cr: TI::Key,
            |
                #![trigger cloned::<TI::Key>(kl, cl), cloned::<TI::Key>(kr, cr)]
                cloned::<TI::Key>(kl, cl) && cloned::<TI::Key>(kr, cr) && self.ctx().type_interner().valid_key(cl)
                    && self.ctx().type_interner().valid_key(cr) && call_ensures(
                    O::is_subtype,
                    (&self.ops(), &self.ctx().type_interner().item(cl), &self.ctx().type_interner().item(cr)),
                    subspace,
                ),
            (
                SpaceNode::Product { extractor: xl, parameters: pl, .. },
                SpaceNode::Product { extractor: xr, parameters: pr, .. },
            ) => {
                &&& subspace ==> pl@.len() == pr@.len() && forall|j: int|
                    0 <= j < pl@.len() ==> #[trigger] self.answered_subspace(pl@[j], pr@[j]) == Some(true)
                &&& !subspace ==> pl@.len() != pr@.len() || (exists|j: int|
                    0 <= j < pl@.len() && #[trigger] self.answered_subspace(pl@[j], pr@[j]) == Some(false)) || exists|
                    cl: EI::Key,
                    cr: EI::Key,
                |
                    #![trigger cloned::<EI::Key>(xl, cl), cloned::<EI::Key>(xr, cr)]
                    cloned::<EI::Key>(xl, cl) && cloned::<EI::Key>(xr, cr) && self.ctx().extractor_interner().valid_key(cl)
                        && self.ctx().extractor_interner().valid_key(cr) && call_ensures(
                        O::extractors_are_equivalent,
                        (&self.ops(), &self.ctx().extractor_interner().item(cl), &self.ctx().extractor_interner().item(cr)),
                        false,
                    )
            },
            (SpaceNode::Product { .. }, SpaceNode::Union(_)) => exists|rest: nat, simplified: nat|
                #![trigger self.simplification_is(rest, simplified)]
                self.answered_subtraction(left, right) == Some(rest) && self.simplification_is(rest, simplified) && (subspace
                    <==> simplified == 0),
            _ => true,
        }
    }

    /// The engine remembers that the space with id `id` simplifies to the one
    /// with id `simplified`.
    pub closed spec fn simplification_is(self, id: nat, simplified: nat) -> bool {
        self.remembered_simplification(Space::with_id(id)) == Some(simplified)
    }

    /// The answer `subspace` for `left` and `right` is what the engine gives:
    /// on their simplifications, true when the left one is empty or both are
    /// the same, false when only the right one is empty, and otherwise an
    /// answer that agrees case by case with the engine's other answers.
    pub closed spec fn subspace_decided(self, left: Space<O::Type, O::Extractor>, right: Space<O::Type, O::Extractor>, subspace: bool) -> bool {
        match (self.remembered_simplification(left), self.remembered_simplification(right)) {
            (Some(l), Some(r)) => {
                &&& l == 0 || l == r ==> subspace
                &&& l != 0 && l != r && r == 0 ==> !subspace
                &&& l != 0 && r != 0 && l != r ==> self.subspace_case_ok(Space::with_id(l), Space::with_id(r), subspace)
            },
            _ => false,
        }
    }

    /// Every remembered subspace answer is for two distinct non-empty spaces of
    /// the context and, while steps remain, agrees case by case with the
    /// engine's other answers.
    pub closed spec fn subspaces_ok(self) -> bool {
        let answers = space_flag_entries(self.caches.memo.subspace_results);
        &&& forall|k: (usize, usize)| #[trigger]
            answers.contains_key(k) ==> 0 < k.0 <= self.ctx().nodes().len() && 0 < k.1 <= self.ctx().nodes().len() && k.0 != k.1
        &&& self.steps() > 0 ==> forall|k: (usize, usize)| #[trigger]
            answers.contains_key(k) ==> self.subspace_case_ok(Space::with_id(k.0 as nat), Space::with_id(k.1 as nat), answers[k])
    }

    /// Every subspace answer that `prev` remembered is still remembered, with
    /// the same value.
    pub closed spec fn keeps_subspaces(self, prev: Self) -> bool {
        forall|k: (usize, usize)|
            #[trigger] space_flag_entries(prev.caches.memo.subspace_results).contains_key(k) ==> space_flag_entries(
                self.caches.memo.subspace_results,
            ).contains_key(k) && space_flag_entries(self.caches.memo.subspace_results)[k] == space_flag_entries(
                prev.caches.memo.subspace_results,
            )[k]
    }

    /// The remainder that the engine has remembered for `left` minus `right`,
    /// if any.
    pub closed spec fn remembered_subtraction(self, left: Space<O::Type, O::Extractor>, right: Space<O::Type, O::Extractor>) -> Option<nat> {
        let remainders = space_pair_entries(self.caches.memo.subtraction_results);
        let key = (left@ as usize, right@ as usize);
        if remainders.contains_key(key) {
            Some(remainders[key] as nat)
        } else {
            None
        }
    }

    /// What the engine answers for `left` minus `right`: `left` itself when
    /// either is empty, the empty space when both are the same, and otherwise
    /// the remainder it remembered.
    pub closed spec fn answered_subtraction(self, left: Space<O::Type, O::Extractor>, right: Space<O::Type, O::Extractor>) -> Option<nat> {
        if left@ == 0 || right@ == 0 {
            Some(left@)
        } else if left@ == right@ {
            Some(0)
        } else {
            self.remembered_subtraction(left, right)
        }
    }

    /// The remainder `remainder` of two distinct non-empty spaces agrees with
    /// the operations and with the engine's other answers: a union leaves the
    /// union of what each member leaves, less every space that an earlier
    /// kept one covers, and nothing when each member leaves nothing; a type
    /// space of a subtype, and a product of a subtype of a type space, leave
    /// nothing, and so does a product that simplifies to nothing; otherwise a
    /// type space leaves itself unless a decomposition is subtracted in its
    /// place (its own, or the other type's), or it lifts into the product it
    /// meets; products of different arity, or of extractors found not
    /// equivalent, leave the left one whole, as does a product with a
    /// parameter that its remainder still covers; a product whose every
    /// parameter is reduced is rebuilt as the union of the products with one
    /// parameter replaced by a piece of the flattened remainder of that
    /// parameter, or is nothing when every remainder is nothing; a type space
    /// minus a union is the part of its decomposition that the union does not
    /// cover, minus the union; a product minus a union is the product minus
    /// each member in turn, until nothing is left.
    pub closed spec fn subtraction_case_ok(self, left: Space<O::Type, O::Extractor>, right: Space<O::Type, O::Extractor>, remainder: Space<O::Type, O::Extractor>) -> bool {
        match (self.ctx().node(left), self.ctx().node(right)) {
            (SpaceNode::Union(members), _) => {
                &&& forall|j: int| 0 <= j < members@.len() ==> #[trigger] self.answered_subtraction(members@[j], right) is Some
                &&& (forall|j: int|
                    0 <= j < members@.len() ==> #[trigger] self.answered_subtraction(members@[j], right) == Some(0nat)) ==> remainder@ == 0
                &&& self.pruned_remainders(members@, right, remainder)
            },
            (SpaceNode::Type { value_type: kl, .. }, SpaceNode::Type { value_type: kr, .. }) => {
                &&& remainder@ == 0 || exists|cl: TI::Key, cr: TI::Key|
                    #![trigger cloned::<TI::Key>(kl, cl), cloned::<TI::Key>(kr, cr)]
                    cloned::<TI::Key>(kl, cl) && cloned::<TI::Key>(kr, cr) && self.ctx().type_interner().valid_key(cl)
                        && self.ctx().type_interner().valid_key(cr) && call_ensures(
                        O::is_subtype,
                        (&self.ops(), &self.ctx().type_interner().item(cl), &self.ctx().type_interner().item(cr)),
                        false,
                    )
                &&& remainder != left ==> (remainder@ == 0 && self.subtype_answered(kl, kr, true)) || (TI::Key::obeys_eq_spec()
                    ==> self.type_decomposes(kl) && self.left_decomposition_leaves(kl, right, remainder@) || self.type_decomposes(kr)
                    && self.right_decomposition_leaves(left@, kr, remainder@))
            },
            (SpaceNode::Type { value_type: kl, .. }, SpaceNode::Product { value_type: kr, extractor: xr, parameters: pr }) => remainder
                != left ==> self.lifts_into(kl, kr, xr, pr@.len()) || (TI::Key::obeys_eq_spec() ==> self.type_decomposes(kl)
                && self.left_decomposition_leaves(kl, right, remainder@)),
            (SpaceNode::Product { value_type: kl, .. }, SpaceNode::Type { value_type: kr, .. }) => {
                &&& remainder@ == 0 || self.remembered_simplification(left) is Some && self.remembered_simplification(left)
                    != Some(0nat)
                &&& remainder@ == 0 || exists|cl: TI::Key, cr: TI::Key|
                    #![trigger cloned::<TI::Key>(kl, cl), cloned::<TI::Key>(kr, cr)]
                    cloned::<TI::Key>(kl, cl) && cloned::<TI::Key>(kr, cr) && self.ctx().type_interner().valid_key(cl)
                        && self.ctx().type_interner().valid_key(cr) && call_ensures(
                        O::is_subtype,
                        (&self.ops(), &self.ctx().type_interner().item(cl), &self.ctx().type_interner().item(cr)),
                        false,
                    )
                &&& remainder@ == 0 ==> self.subtype_answered(kl, kr, true) || self.remembered_simplification(left) == Some(0nat)
                    || (TI::Key::obeys_eq_spec() ==> self.type_decomposes(kr) && (self.remembered_simplification(left) matches Some(
                    simplified,
                ) && self.right_decomposition_leaves(simplified, kr, remainder@)))
                &&& remainder@ != 0 && self.remembered_simplification(left) != Some(remainder@) ==> (TI::Key::obeys_eq_spec()
                    ==> self.type_decomposes(kr) && (self.remembered_simplification(left) matches Some(simplified)
                    && self.right_decomposition_leaves(simplified, kr, remainder@)))
            },
            (
                SpaceNode::Product { extractor: xl, parameters: pl, .. },
                SpaceNode::Product { extractor: xr, parameters: pr, .. },
            ) => {
                &&& pl@.len() != pr@.len() ==> remainder == left
                &&& remainder != left ==> pl@.len() == pr@.len() && forall|j: int|
                    0 <= j < pl@.len() ==> #[trigger] self.parameter_reduced(pl@[j], pr@[j])
                &&& remainder != left && remainder@ != 0 ==> self.rebuilt_from_slots(pl@, pr@, remainder)
                &&& remainder@ == 0 ==> (forall|j: int| 0 <= j < pl@.len() ==> #[trigger] self.parameter_emptied(pl@[j], pr@[j]))
                    || self.rebuilt_from_slots(pl@, pr@, remainder)
                &&& remainder == left ==> {
                    ||| pl@.len() != pr@.len()
                    ||| self.extractors_answered(xl, xr, false)
                    ||| exists|j: int| 0 <= j < pl@.len() && #[trigger] self.parameter_kept(pl@[j], pr@[j])
                    ||| self.rebuilt_from_slots(pl@, pr@, remainder)
                }
            },
            (SpaceNode::Product { .. }, SpaceNode::Union(members)) => self.subtracts_each(left, members@, remainder),
            (SpaceNode::Type { value_type: kl, .. }, SpaceNode::Union(members)) => TI::Key::obeys_eq_spec() ==> {
                ||| exists|copy: TI::Key, filtered: Space<O::Type, O::Extractor>|
                    #![trigger cloned::<TI::Key>(kl, copy), self.filtered_to(copy, right, filtered)]
                    cloned::<TI::Key>(kl, copy) && self.filtered_to(copy, right, filtered) && self.answered_subtraction(filtered, right)
                        == Some(remainder@)
                ||| (exists|copy: TI::Key|
                    #![trigger self.decomposes_as(copy, Decomposition::NotDecomposable)]
                    cloned::<TI::Key>(kl, copy) && self.decomposes_as(copy, Decomposition::NotDecomposable)) && self.subtracts_each(
                    left,
                    members@,
                    remainder,
                )
            },
            _ => true,
        }
    }

    /// `remainder` is `left` minus each of `members` in turn, stopping once
    /// nothing is left.
    pub closed spec fn subtracts_each(self, left: Space<O::Type, O::Extractor>, members: Seq<Space<O::Type, O::Extractor>>, remainder: Space<O::Type, O::Extractor>) -> bool {
        exists|chain: Seq<nat>|
            #![trigger chain.len()]
            {
                &&& 1 <= chain.len() <= members.len() + 1
                &&& chain[0] == left@
                &&& chain.last() == remainder@
                &&& chain.len() < members.len() + 1 ==> chain.last() == 0
                &&& forall|k: int|
                    0 <= k < chain.len() - 1 ==> chain[k] != 0 && #[trigger] self.answered_subtraction(
                        Space::with_id(chain[k]),
                        members[k],
                    ) == Some(chain[k + 1])
            }
    }

    /// `space` is a type space that a decomposition introduced for the part
    /// `part`, or for a key that `==` finds equal to it.
    pub open spec fn is_part_space(self, space: Space<O::Type, O::Extractor>, part: TI::Key) -> bool {
        &&& space@ != 0
        &&& self.ctx().valid_space(space)
        &&& self.ctx().node(space) matches SpaceNode::Type { value_type: k, introduced_by_decomposition: d } && d && (k == part
            || k.eq_spec(&part))
    }

    /// A type space of a part stays one as the engine evolves.
    pub(crate) proof fn lemma_part_space_kept(self, prev: Self, space: Space<O::Type, O::Extractor>, part: TI::Key)
        requires
            self.ctx().extends(prev.ctx()),
            prev.is_part_space(space, part),
        ensures
            self.is_part_space(space, part),
    {
        self.lemma_node_kept(prev, space);
    }

    pub(crate) proof fn lemma_part_space_valid(self, space: Space<O::Type, O::Extractor>, part: TI::Key)
        requires
            self.is_part_space(space, part),
        ensures
            self.ctx().valid_space(space),
    {
    }

    /// The spaces among `spaces`, in order, that the engine answered are no
    /// subspace of `covering`.
    pub closed spec fn uncovered_parts(self, spaces: Seq<Space<O::Type, O::Extractor>>, covering: Space<O::Type, O::Extractor>) -> Seq<Space<O::Type, O::Extractor>>
        decreases spaces.len(),
    {
        if spaces.len() == 0 {
            Seq::empty()
        } else if self.answered_subspace(spaces.last(), covering) == Some(false) {
            self.uncovered_parts(spaces.drop_last(), covering).push(spaces.last())
        } else {
            self.uncovered_parts(spaces.drop_last(), covering)
        }
    }

    /// `filtered` is what the decomposition of the type `key` leaves once
    /// `covering` is taken away part by part: nothing when the type decomposes
    /// into nothing, and otherwise the union of the type spaces of its parts
    /// that `covering` does not cover.
    pub closed spec fn filtered_to(self, key: TI::Key, covering: Space<O::Type, O::Extractor>, filtered: Space<O::Type, O::Extractor>) -> bool {
        ||| self.decomposes_as(key, Decomposition::Empty) && filtered@ == 0
        ||| exists|parts: Vec<TI::Key>, spaces: Seq<Space<O::Type, O::Extractor>>|
            #![trigger self.decomposes_as(key, Decomposition::Parts(parts)), self.uncovered_parts(spaces, covering)]
            self.decomposes_as(key, Decomposition::Parts(parts)) && spaces.len() == parts@.len() && (forall|j: int|
                0 <= j < spaces.len() ==> #[trigger] self.is_part_space(spaces[j], parts@[j]) && self.answered_subspace(
                    spaces[j],
                    covering,
                ) is Some) && self.ctx().is_union_of(filtered, self.ctx().union_member_list(self.uncovered_parts(spaces, covering)))
    }

    proof fn lemma_uncovered_parts_kept(self, prev: Self, spaces: Seq<Space<O::Type, O::Extractor>>, covering: Space<O::Type, O::Extractor>)
        requires
            self.keeps_simplifications(prev),
            self.keeps_subspaces(prev),
            forall|j: int| 0 <= j < spaces.len() ==> #[trigger] prev.answered_subspace(spaces[j], covering) is Some,
        ensures
            self.uncovered_parts(spaces, covering) == prev.uncovered_parts(spaces, covering),
            forall|j: int| 0 <= j < self.uncovered_parts(spaces, covering).len() ==> spaces.contains(
                #[trigger] self.uncovered_parts(spaces, covering)[j],
            ),
        decreases spaces.len(),
    {
        if spaces.len() > 0 {
            let rest = spaces.drop_last();
            assert forall|j: int| 0 <= j < rest.len() implies #[trigger] prev.answered_subspace(rest[j], covering) is Some by {
                assert(rest[j] == spaces[j]);
            }
            self.lemma_uncovered_parts_kept(prev, rest, covering);
            assert(prev.answered_subspace(spaces[spaces.len() - 1], covering) is Some);
            self.lemma_answered_kept(prev, spaces.last(), covering);
            let result = self.uncovered_parts(spaces, covering);
            assert forall|j: int| 0 <= j < result.len() implies spaces.contains(#[trigger] result[j]) by {
                if j < self.uncovered_parts(rest, covering).len() {
                    assert(rest.contains(result[j]));
                    let i = choose|i: int| 0 <= i < rest.len() && rest[i] == result[j];
                    assert(spaces[i] == result[j]);
                } else {
                    assert(spaces[spaces.len() - 1] == result[j]);
                }
            }
        }
    }

    proof fn lemma_filtered_to_kept(self, prev: Self, key: TI::Key, covering: Space<O::Type, O::Extractor>, filtered: Space<O::Type, O::Extractor>)
        requires
            self.ctx().extends(prev.ctx()),
            self.ops() == prev.ops(),
            self.keeps_simplifications(prev),
            self.keeps_subspaces(prev),
            prev.filtered_to(key, covering, filtered),
        ensures
            self.filtered_to(key, covering, filtered),
    {
        if prev.decomposes_as(key, Decomposition::Empty) && filtered@ == 0 {
            self.lemma_decomposes_as_extends(prev, key, Decomposition::Empty);
        } else {
            let (parts, spaces) = choose|parts: Vec<TI::Key>, spaces: Seq<Space<O::Type, O::Extractor>>|
                prev.decomposes_as(key, Decomposition::Parts(parts)) && spaces.len() == parts@.len() && (forall|j: int|
                    0 <= j < spaces.len() ==> #[trigger] prev.is_part_space(spaces[j], parts@[j]) && prev.answered_subspace(
                        spaces[j],
                        covering,
                    ) is Some) && prev.ctx().is_union_of(filtered, prev.ctx().union_member_list(prev.uncovered_parts(spaces, covering)));
            self.lemma_decomposes_as_extends(prev, key, Decomposition::Parts(parts));
            assert forall|j: int| 0 <= j < spaces.len() implies #[trigger] prev.answered_subspace(spaces[j], covering) is Some by {
                assert(prev.is_part_space(spaces[j], parts@[j]));
            }
            self.lemma_uncovered_parts_kept(prev, spaces, covering);
            assert forall|j: int| 0 <= j < spaces.len() implies #[trigger] self.is_part_space(spaces[j], parts@[j]) && self.answered_subspace(
                spaces[j],
                covering,
            ) is Some by {
                assert(prev.is_part_space(spaces[j], parts@[j]));
                self.lemma_node_kept(prev, spaces[j]);
                self.lemma_answered_kept(prev, spaces[j], covering);
            }
            let kept = prev.uncovered_parts(spaces, covering);
            assert forall|j: int| 0 <= j < kept.len() implies prev.ctx().valid_space(#[trigger] kept[j]) by {
                assert(spaces.contains(kept[j]));
                let i = choose|i: int| 0 <= i < spaces.len() && spaces[i] == kept[j];
                assert(prev.is_part_space(spaces[i], parts@[i]));
            }
            self.ctx().lemma_union_member_list_extends(prev.ctx(), kept);
            self.ctx().lemma_is_union_of_extends(prev.ctx(), filtered, prev.ctx().union_member_list(kept));
        }
    }

    proof fn lemma_subtracts_each_kept(self, prev: Self, left: Space<O::Type, O::Extractor>, members: Seq<Space<O::Type, O::Extractor>>, remainder: Space<O::Type, O::Extractor>)
        requires
            self.keeps_subtractions(prev),
            prev.subtracts_each(left, members, remainder),
        ensures
            self.subtracts_each(left, members, remainder),
    {
        let chain = choose|chain: Seq<nat>|
            #![trigger chain.len()]
            {
                &&& 1 <= chain.len() <= members.len() + 1
                &&& chain[0] == left@
                &&& chain.last() == remainder@
                &&& chain.len() < members.len() + 1 ==> chain.last() == 0
                &&& forall|k: int|
                    0 <= k < chain.len() - 1 ==> chain[k] != 0 && #[trigger] prev.answered_subtraction(
                        Space::with_id(chain[k]),
                        members[k],
                    ) == Some(chain[k + 1])
            };
        assert forall|k: int| 0 <= k < chain.len() - 1 implies chain[k] != 0 && #[trigger] self.answered_subtraction(
            Space::with_id(chain[k]),
            members[k],
        ) == Some(chain[k + 1]) by {
            assert(prev.answered_subtraction(Space::with_id(chain[k]), members[k]) == Some(chain[k + 1]));
            self.lemma_subtraction_answer_kept(prev, Space::with_id(chain[k]), members[k]);
        }
        assert(chain.len() == chain.len());
    }

    /// `result` is the union of what is left of each member once `right` is
    /// subtracted from it, leaving out every space that an earlier kept one
    /// covers.
    pub closed spec fn pruned_remainders(self, members: Seq<Space<O::Type, O::Extractor>>, right: Space<O::Type, O::Extractor>, result: Space<O::Type, O::Extractor>) -> bool {
        exists|remainders: Seq<Space<O::Type, O::Extractor>>, stages: Seq<Seq<Space<O::Type, O::Extractor>>>|
            #![trigger self.prunes_to(self.ctx().union_member_list(remainders), stages)]
            remainders.len() == members.len() && (forall|j: int|
                0 <= j < members.len() ==> self.ctx().valid_space(#[trigger] remainders[j]) && self.answered_subtraction(
                    members[j],
                    right,
                ) == Some(remainders[j]@)) && self.prunes_to(self.ctx().union_member_list(remainders), stages)
                && self.ctx().is_union_of(result, stages.last())
    }

    /// Subtracting `right` from the parameter `left` leaves a remainder whose
    /// simplification does not cover `left`.
    pub closed spec fn parameter_reduced(self, left: Space<O::Type, O::Extractor>, right: Space<O::Type, O::Extractor>) -> bool {
        exists|rest: nat, simplified: nat|
            #![trigger self.remembered_simplification(Space::with_id(rest)), self.answered_subspace(left, Space::with_id(simplified))]
            self.answered_subtraction(left, right) == Some(rest) && self.remembered_simplification(Space::with_id(rest))
                == Some(simplified) && self.answered_subspace(left, Space::with_id(simplified)) == Some(false)
    }

    /// What is left of the parameter `left` once `right` is subtracted
    /// simplifies to a space that `left` is a subspace of: the parameter is
    /// not reduced.
    pub closed spec fn parameter_kept(self, left: Space<O::Type, O::Extractor>, right: Space<O::Type, O::Extractor>) -> bool {
        exists|rest: nat, simplified: nat|
            #![trigger self.remembered_simplification(Space::with_id(rest)), self.answered_subspace(left, Space::with_id(simplified))]
            self.answered_subtraction(left, right) == Some(rest) && self.remembered_simplification(Space::with_id(rest))
                == Some(simplified) && self.answered_subspace(left, Space::with_id(simplified)) == Some(true)
    }

    /// Nothing is left of the parameter `left` once `right` is subtracted and
    /// the rest simplified.
    pub closed spec fn parameter_emptied(self, left: Space<O::Type, O::Extractor>, right: Space<O::Type, O::Extractor>) -> bool {
        exists|rest: nat|
            #![trigger self.remembered_simplification(Space::with_id(rest))]
            self.answered_subtraction(left, right) == Some(rest) && self.remembered_simplification(Space::with_id(rest))
                == Some(0nat)
    }

    /// The operations, asked whether the extractor of a clone of `xl` is
    /// equivalent to that of a clone of `xr`, may answer `equivalent`.
    pub closed spec fn extractors_answered(self, xl: EI::Key, xr: EI::Key, equivalent: bool) -> bool {
        exists|cl: EI::Key, cr: EI::Key|
            #![trigger cloned::<EI::Key>(xl, cl), cloned::<EI::Key>(xr, cr)]
            cloned::<EI::Key>(xl, cl) && cloned::<EI::Key>(xr, cr) && self.ctx().extractor_interner().valid_key(cl)
                && self.ctx().extractor_interner().valid_key(cr) && call_ensures(
                O::extractors_are_equivalent,
                (&self.ops(), &self.ctx().extractor_interner().item(cl), &self.ctx().extractor_interner().item(cr)),
                equivalent,
            )
    }

    proof fn lemma_parameter_kept_extends(self, prev: Self, left: Space<O::Type, O::Extractor>, right: Space<O::Type, O::Extractor>)
        requires
            self.keeps_simplifications(prev),
            self.keeps_subspaces(prev),
            self.keeps_subtractions(prev),
            prev.parameter_kept(left, right),
        ensures
            self.parameter_kept(left, right),
    {
        let (rest, simplified) = choose|rest: nat, simplified: nat|
            prev.answered_subtraction(left, right) == Some(rest) && prev.remembered_simplification(Space::with_id(rest))
                == Some(simplified) && prev.answered_subspace(left, Space::with_id(simplified)) == Some(true);
        self.lemma_subtraction_answer_kept(prev, left, right);
        self.lemma_simplification_kept(prev, Space::with_id(rest));
        self.lemma_answered_kept(prev, left, Space::with_id(simplified));
        assert(self.answered_subtraction(left, right) == Some(rest) && self.remembered_simplification(Space::with_id(rest))
            == Some(simplified));
    }

    proof fn lemma_parameter_emptied_extends(self, prev: Self, left: Space<O::Type, O::Extractor>, right: Space<O::Type, O::Extractor>)
        requires
            self.keeps_simplifications(prev),
            self.keeps_subtractions(prev),
            prev.parameter_emptied(left, right),
        ensures
            self.parameter_emptied(left, right),
    {
        let rest = choose|rest: nat|
            prev.answered_subtraction(left, right) == Some(rest) && prev.remembered_simplification(Space::with_id(rest))
                == Some(0nat);
        self.lemma_subtraction_answer_kept(prev, left, right);
        self.lemma_simplification_kept(prev, Space::with_id(rest));
    }

    proof fn lemma_extractors_answered_extends(self, prev: Self, xl: EI::Key, xr: EI::Key, equivalent: bool)
        requires
            self.ctx().extends(prev.ctx()),
            self.ops() == prev.ops(),
            prev.extractors_answered(xl, xr, equivalent),
        ensures
            self.extractors_answered(xl, xr, equivalent),
    {
        let (cl, cr) = choose|cl: EI::Key, cr: EI::Key|
            cloned::<EI::Key>(xl, cl) && cloned::<EI::Key>(xr, cr) && prev.ctx().extractor_interner().valid_key(cl)
                && prev.ctx().extractor_interner().valid_key(cr) && call_ensures(
                O::extractors_are_equivalent,
                (&prev.ops(), &prev.ctx().extractor_interner().item(cl), &prev.ctx().extractor_interner().item(cr)),
                equivalent,
            );
        assert(self.ctx().extractor_interner().item(cl) == prev.ctx().extractor_interner().item(cl));
        assert(self.ctx().extractor_interner().item(cr) == prev.ctx().extractor_interner().item(cr));
    }

    /// Going from the kept spaces `previous` to `next` on meeting `candidate`:
    /// the candidate is dropped when the engine answered that some kept space
    /// covers it, and kept when it answered that none does.
    pub closed spec fn prune_step(
        self,
        previous: Seq<Space<O::Type, O::Extractor>>,
        candidate: Space<O::Type, O::Extractor>,
        next: Seq<Space<O::Type, O::Extractor>>,
    ) -> bool {
        ||| next == previous && exists|k: int|
            0 <= k < previous.len() && #[trigger] self.answered_subspace(candidate, previous[k]) == Some(true)
        ||| next == previous.push(candidate) && forall|k: int|
            0 <= k < previous.len() ==> #[trigger] self.answered_subspace(candidate, previous[k]) == Some(false)
    }

    /// `stages` are the kept spaces as the candidates are met one by one,
    /// starting from none.
    pub closed spec fn prunes_to(self, candidates: Seq<Space<O::Type, O::Extractor>>, stages: Seq<Seq<Space<O::Type, O::Extractor>>>) -> bool {
        &&& stages.len() == candidates.len() + 1
        &&& stages[0] == Seq::<Space<O::Type, O::Extractor>>::empty()
        &&& forall|i: int| 0 <= i < candidates.len() ==> #[trigger] self.prune_step(stages[i], candidates[i], stages[i + 1])
    }

    pub(crate) proof fn lemma_prunes_to_kept(self, prev: Self, candidates: Seq<Space<O::Type, O::Extractor>>, stages: Seq<Seq<Space<O::Type, O::Extractor>>>)
        requires
            self.keeps_simplifications(prev),
            self.keeps_subspaces(prev),
            prev.prunes_to(candidates, stages),
        ensures
            self.prunes_to(candidates, stages),
    {
        assert forall|i: int| 0 <= i < candidates.len() implies #[trigger] self.prune_step(stages[i], candidates[i], stages[i + 1]) by {
            self.lemma_prune_step_kept(prev, stages[i], candidates[i], stages[i + 1]);
        }
    }

    pub(crate) proof fn lemma_prune_step_kept(
        self,
        prev: Self,
        previous: Seq<Space<O::Type, O::Extractor>>,
        candidate: Space<O::Type, O::Extractor>,
        next: Seq<Space<O::Type, O::Extractor>>,
    )
        requires
            self.keeps_simplifications(prev),
            self.keeps_subspaces(prev),
            prev.prune_step(previous, candidate, next),
        ensures
            self.prune_step(previous, candidate, next),
    {
        if next == previous && exists|k: int|
            0 <= k < previous.len() && #[trigger] prev.answered_subspace(candidate, previous[k]) == Some(true) {
            let k = choose|k: int| 0 <= k < previous.len() && #[trigger] prev.answered_subspace(candidate, previous[k]) == Some(true);
            self.lemma_answered_kept(prev, candidate, previous[k]);
        } else {
            assert forall|k: int| 0 <= k < previous.len() implies #[trigger] self.answered_subspace(candidate, previous[k]) == Some(false) by {
                assert(prev.answered_subspace(candidate, previous[k]) == Some(false));
                self.lemma_answered_kept(prev, candidate, previous[k]);
            }
        }
    }

    /// `candidates` are products of the parameters `parameters`, one for each
    /// slot and each of its `pieces`, with that slot replaced by the piece.
    pub closed spec fn slot_products(
        self,
        parameters: Seq<Space<O::Type, O::Extractor>>,
        pieces: Seq<Seq<Space<O::Type, O::Extractor>>>,
        candidates: Seq<Space<O::Type, O::Extractor>>,
    ) -> bool {
        let slots = slot_list(pieces);
        &&& candidates.len() == slots.len()
        &&& forall|t: int|
            0 <= t < candidates.len() ==> {
                &&& self.ctx().valid_space(#[trigger] candidates[t])
                &&& candidates[t]@ != 0
                &&& self.ctx().node(candidates[t]) is Product
                &&& product_parameters(self.ctx().node(candidates[t])) == parameters.update(slots[t].0, slots[t].1)
            }
    }

    /// `result` is the union of the products of `parameters` with one slot
    /// replaced by one of its `pieces`, leaving out every product that an
    /// earlier kept one covers; the pieces of a slot are what is left of its
    /// parameter once the matching one of `others` is subtracted, simplified
    /// and flattened.
    pub closed spec fn rebuilt_from_slots(
        self,
        parameters: Seq<Space<O::Type, O::Extractor>>,
        others: Seq<Space<O::Type, O::Extractor>>,
        result: Space<O::Type, O::Extractor>,
    ) -> bool {
        exists|pieces: Seq<Seq<Space<O::Type, O::Extractor>>>, candidates: Seq<Space<O::Type, O::Extractor>>, stages: Seq<Seq<Space<O::Type, O::Extractor>>>|
            #![trigger self.slot_products(parameters, pieces, candidates), self.prunes_to(self.ctx().union_member_list(candidates), stages)]
            pieces.len() == parameters.len() && (forall|p: int| 0 <= p < pieces.len() ==> (#[trigger] pieces[p]).len() >= 1
                && self.slot_pieces_at(parameters[p], others[p], pieces[p])) && self.slot_products(parameters, pieces, candidates)
                && self.prunes_to(self.ctx().union_member_list(candidates), stages) && self.ctx().is_union_of(result, stages.last())
    }

    /// `pieces` is what is left of `left` once `right` is subtracted and the
    /// rest simplified and flattened: the empty space alone when nothing is
    /// left.
    pub closed spec fn slot_pieces_at(self, left: Space<O::Type, O::Extractor>, right: Space<O::Type, O::Extractor>, pieces: Seq<Space<O::Type, O::Extractor>>) -> bool {
        exists|rest: nat, simplified: nat|
            #![trigger self.remembered_simplification(Space::with_id(rest)), self.remembered_flattening(Space::with_id(simplified))]
            self.answered_subtraction(left, right) == Some(rest) && self.remembered_simplification(Space::with_id(rest)) == Some(
                simplified,
            ) && (simplified == 0 ==> spaces_view(pieces) == seq![0nat]) && (simplified != 0 ==> self.remembered_flattening(
                Space::with_id(simplified),
            ) == Some(spaces_view(pieces)))
    }

    proof fn lemma_slot_pieces_kept(self, prev: Self, left: Space<O::Type, O::Extractor>, right: Space<O::Type, O::Extractor>, pieces: Seq<Space<O::Type, O::Extractor>>)
        requires
            self.keeps_simplifications(prev),
            self.keeps_subtractions(prev),
            self.keeps_flattenings(prev),
            prev.slot_pieces_at(left, right, pieces),
        ensures
            self.slot_pieces_at(left, right, pieces),
    {
        let (rest, simplified) = choose|rest: nat, simplified: nat|
            prev.answered_subtraction(left, right) == Some(rest) && prev.remembered_simplification(Space::with_id(rest)) == Some(
                simplified,
            ) && (simplified == 0 ==> spaces_view(pieces) == seq![0nat]) && (simplified != 0 ==> prev.remembered_flattening(
                Space::with_id(simplified),
            ) == Some(spaces_view(pieces)));
        self.lemma_subtraction_answer_kept(prev, left, right);
        self.lemma_simplification_kept(prev, Space::with_id(rest));
        if simplified != 0 {
            self.lemma_flattening_kept(prev, Space::with_id(simplified));
        }
        assert(self.remembered_simplification(Space::with_id(rest)) == Some(simplified));
        assert(self.remembered_flattening(Space::with_id(simplified)) == self.remembered_flattening(Space::with_id(simplified)));
    }

    pub(crate) proof fn lemma_slot_products_kept(
        self,
        prev: Self,
        parameters: Seq<Space<O::Type, O::Extractor>>,
        pieces: Seq<Seq<Space<O::Type, O::Extractor>>>,
        candidates: Seq<Space<O::Type, O::Extractor>>,
    )
        requires
            self.ctx().extends(prev.ctx()),
            prev.slot_products(parameters, pieces, candidates),
        ensures
            self.slot_products(parameters, pieces, candidates),
    {
        assert forall|t: int| 0 <= t < candidates.len() implies {
            &&& self.ctx().valid_space(#[trigger] candidates[t])
            &&& candidates[t]@ != 0
            &&& self.ctx().node(candidates[t]) is Product
            &&& product_parameters(self.ctx().node(candidates[t])) == parameters.update(slot_list(pieces)[t].0, slot_list(pieces)[t].1)
        } by {
            assert(prev.ctx().valid_space(candidates[t]) && candidates[t]@ != 0);
            self.lemma_node_kept(prev, candidates[t]);
        }
    }

    pub(crate) proof fn lemma_rebuilt_from_slots_kept(
        self,
        prev: Self,
        parameters: Seq<Space<O::Type, O::Extractor>>,
        others: Seq<Space<O::Type, O::Extractor>>,
        result: Space<O::Type, O::Extractor>,
    )
        requires
            self.ctx().extends(prev.ctx()),
            self.keeps_simplifications(prev),
            self.keeps_subspaces(prev),
            self.keeps_subtractions(prev),
            self.keeps_flattenings(prev),
            prev.rebuilt_from_slots(parameters, others, result),
        ensures
            self.rebuilt_from_slots(parameters, others, result),
    {
        let (pieces, candidates, stages) = choose|pieces: Seq<Seq<Space<O::Type, O::Extractor>>>, candidates: Seq<Space<O::Type, O::Extractor>>, stages: Seq<Seq<Space<O::Type, O::Extractor>>>|
            pieces.len() == parameters.len() && (forall|p: int| 0 <= p < pieces.len() ==> (#[trigger] pieces[p]).len() >= 1
                && prev.slot_pieces_at(parameters[p], others[p], pieces[p])) && prev.slot_products(parameters, pieces, candidates)
                && prev.prunes_to(prev.ctx().union_member_list(candidates), stages) && prev.ctx().is_union_of(result, stages.last());
        assert forall|p: int| 0 <= p < pieces.len() implies (#[trigger] pieces[p]).len() >= 1 && self.slot_pieces_at(
            parameters[p],
            others[p],
            pieces[p],
        ) by {
            self.lemma_slot_pieces_kept(prev, parameters[p], others[p], pieces[p]);
        }
        assert forall|t: int| 0 <= t < candidates.len() implies {
            &&& self.ctx().valid_space(#[trigger] candidates[t])
            &&& candidates[t]@ != 0
            &&& self.ctx().node(candidates[t]) is Product
            &&& product_parameters(self.ctx().node(candidates[t])) == parameters.update(slot_list(pieces)[t].0, slot_list(pieces)[t].1)
        } by {
            assert(prev.ctx().valid_space(candidates[t]) && candidates[t]@ != 0);
            self.lemma_node_kept(prev, candidates[t]);
        }
        assert(self.slot_products(parameters, pieces, candidates));
        self.ctx().lemma_union_member_list_extends(prev.ctx(), candidates);
        self.lemma_prunes_to_kept(prev, prev.ctx().union_member_list(candidates), stages);
        self.ctx().lemma_is_union_of_extends(prev.ctx(), result, stages.last());
    }

    /// Every remembered remainder is for two distinct non-empty spaces of the
    /// context and, while steps remain, agrees case by case with the engine's
    /// other answers.
    pub closed spec fn subtractions_ok(self) -> bool {
        let remainders = space_pair_entries(self.caches.memo.subtraction_results);
        &&& forall|k: (usize, usize)| #[trigger]
            remainders.contains_key(k) ==> 0 < k.0 <= self.ctx().nodes().len() && 0 < k.1 <= self.ctx().nodes().len() && k.0 != k.1
        &&& self.steps() > 0 ==> forall|k: (usize, usize)| #[trigger]
            remainders.contains_key(k) ==> self.subtraction_case_ok(
                Space::with_id(k.0 as nat),
                Space::with_id(k.1 as nat),
                Space::with_id(remainders[k] as nat),
            )
    }

    /// Every remainder that `prev` remembered is still remembered, with the
    /// same value.
    pub closed spec fn keeps_subtractions(self, prev: Self) -> bool {
        forall|k: (usize, usize)|
            #[trigger] space_pair_entries(prev.caches.memo.subtraction_results).contains_key(k) ==> space_pair_entries(
                self.caches.memo.subtraction_results,
            ).contains_key(k) && space_pair_entries(self.caches.memo.subtraction_results)[k] == space_pair_entries(
                prev.caches.memo.subtraction_results,
            )[k]
    }

    /// The intersection that the engine has remembered for `left` and `right`,
    /// if any.
    pub closed spec fn remembered_intersection(self, left: Space<O::Type, O::Extractor>, right: Space<O::Type, O::Extractor>) -> Option<nat> {
        let intersections = space_pair_entries(self.caches.memo.intersection_results);
        let key = (left@ as usize, right@ as usize);
        if intersections.contains_key(key) {
            Some(intersections[key] as nat)
        } else {
            None
        }
    }

    /// What the engine answers for the intersection of `left` and `right`:
    /// the empty space when either is empty, the space itself when both are
    /// the same, and otherwise the intersection it remembered.
    pub closed spec fn answered_intersection(self, left: Space<O::Type, O::Extractor>, right: Space<O::Type, O::Extractor>) -> Option<nat> {
        if left@ == 0 || right@ == 0 {
            Some(0)
        } else if left@ == right@ {
            Some(left@)
        } else {
            self.remembered_intersection(left, right)
        }
    }

    /// The simplification of the intersection of two parameters, once both
    /// are known.
    pub closed spec fn parameter_intersection(self, left: Space<O::Type, O::Extractor>, right: Space<O::Type, O::Extractor>) -> Option<nat> {
        match self.answered_intersection(left, right) {
            Some(id) => self.remembered_simplification(Space::with_id(id)),
            None => None,
        }
    }

    /// `result` is the union of the intersections of each member with
    /// `other`, the members standing on the side that `members_on_left` says.
    pub closed spec fn members_intersect_to(
        self,
        members: Seq<Space<O::Type, O::Extractor>>,
        other: Space<O::Type, O::Extractor>,
        members_on_left: bool,
        result: Space<O::Type, O::Extractor>,
    ) -> bool {
        exists|mapped: Seq<Space<O::Type, O::Extractor>>|
            #![trigger self.ctx().union_member_list(mapped)]
            mapped.len() == members.len() && (forall|j: int|
                0 <= j < members.len() ==> self.ctx().valid_space(#[trigger] mapped[j]) && self.member_intersection(
                    members[j],
                    other,
                    members_on_left,
                ) == Some(mapped[j]@)) && self.ctx().is_union_of(result, self.ctx().union_member_list(mapped))
    }

    /// The intersection of `member` with `other`, `member` standing on the
    /// side that `member_on_left` says.
    pub closed spec fn member_intersection(self, member: Space<O::Type, O::Extractor>, other: Space<O::Type, O::Extractor>, member_on_left: bool) -> Option<nat> {
        if member_on_left {
            self.answered_intersection(member, other)
        } else {
            self.answered_intersection(other, member)
        }
    }

    /// The operations, asked whether the type of a clone of `kl` is a subtype
    /// of that of a clone of `kr`, may answer `subtype`.
    pub closed spec fn subtype_answered(self, kl: TI::Key, kr: TI::Key, subtype: bool) -> bool {
        exists|cl: TI::Key, cr: TI::Key|
            #![trigger cloned::<TI::Key>(kl, cl), cloned::<TI::Key>(kr, cr)]
            cloned::<TI::Key>(kl, cl) && cloned::<TI::Key>(kr, cr) && self.ctx().type_interner().valid_key(cl)
                && self.ctx().type_interner().valid_key(cr) && call_ensures(
                O::is_subtype,
                (&self.ops(), &self.ctx().type_interner().item(cl), &self.ctx().type_interner().item(cr)),
                subtype,
            )
    }

    /// The operations, asked for the atomic intersection of the types of
    /// clones of `kl` and `kr`, gave an answer that is empty exactly when
    /// `intersection` is.
    pub closed spec fn atomic_answered(self, kl: TI::Key, kr: TI::Key, intersection: Space<O::Type, O::Extractor>) -> bool {
        exists|cl: TI::Key, cr: TI::Key, answer: AtomicIntersection<O::Type>|
            #![trigger cloned::<TI::Key>(kl, cl), cloned::<TI::Key>(kr, cr), call_ensures(O::intersect_atomic_types, (&self.ops(), &self.ctx().type_interner().item(cl), &self.ctx().type_interner().item(cr)), answer)]
            cloned::<TI::Key>(kl, cl) && cloned::<TI::Key>(kr, cr) && self.ctx().type_interner().valid_key(cl)
                && self.ctx().type_interner().valid_key(cr) && call_ensures(
                O::intersect_atomic_types,
                (&self.ops(), &self.ctx().type_interner().item(cl), &self.ctx().type_interner().item(cr)),
                answer,
            ) && (answer is Empty <==> intersection@ == 0)
    }

    proof fn lemma_subtype_answered_kept(self, prev: Self, kl: TI::Key, kr: TI::Key, subtype: bool)
        requires
            self.ctx().extends(prev.ctx()),
            self.ops() == prev.ops(),
            prev.subtype_answered(kl, kr, subtype),
        ensures
            self.subtype_answered(kl, kr, subtype),
    {
        let (cl, cr) = choose|cl: TI::Key, cr: TI::Key|
            cloned::<TI::Key>(kl, cl) && cloned::<TI::Key>(kr, cr) && prev.ctx().type_interner().valid_key(cl)
                && prev.ctx().type_interner().valid_key(cr) && call_ensures(
                O::is_subtype,
                (&prev.ops(), &prev.ctx().type_interner().item(cl), &prev.ctx().type_interner().item(cr)),
                subtype,
            );
        assert(self.ctx().type_interner().item(cl) == prev.ctx().type_interner().item(cl));
        assert(self.ctx().type_interner().item(cr) == prev.ctx().type_interner().item(cr));
    }

    proof fn lemma_subtype_answered_kept_all(self, prev: Self, kl: TI::Key, kr: TI::Key)
        requires
            self.ctx().extends(prev.ctx()),
            self.ops() == prev.ops(),
        ensures
            prev.subtype_answered(kl, kr, true) ==> self.subtype_answered(kl, kr, true),
            prev.subtype_answered(kl, kr, false) ==> self.subtype_answered(kl, kr, false),
            prev.subtype_answered(kr, kl, true) ==> self.subtype_answered(kr, kl, true),
            prev.subtype_answered(kr, kl, false) ==> self.subtype_answered(kr, kl, false),
    {
        if prev.subtype_answered(kl, kr, true) {
            self.lemma_subtype_answered_kept(prev, kl, kr, true);
        }
        if prev.subtype_answered(kl, kr, false) {
            self.lemma_subtype_answered_kept(prev, kl, kr, false);
        }
        if prev.subtype_answered(kr, kl, true) {
            self.lemma_subtype_answered_kept(prev, kr, kl, true);
        }
        if prev.subtype_answered(kr, kl, false) {
            self.lemma_subtype_answered_kept(prev, kr, kl, false);
        }
    }

    /// The operations may have answered that the type of a clone of `key`
    /// decomposes, into parts or into nothing.
    pub closed spec fn type_decomposes(self, key: TI::Key) -> bool {
        exists|copy: TI::Key, decomposition: Decomposition<TI::Key>|
            #![trigger cloned::<TI::Key>(key, copy), self.decomposes_as(copy, decomposition)]
            cloned::<TI::Key>(key, copy) && self.decomposes_as(copy, decomposition) && !(decomposition is NotDecomposable)
    }

    /// The operations may have answered that the type of a clone of `kl` is a
    /// subtype of that of a clone of `kr`, and that the extractor of a clone
    /// of `xr` covers it with `arity` parameters.
    pub closed spec fn lifts_into(self, kl: TI::Key, kr: TI::Key, xr: EI::Key, arity: nat) -> bool {
        exists|cl: TI::Key, cr: TI::Key, cx: EI::Key|
            #![trigger cloned::<TI::Key>(kl, cl), cloned::<TI::Key>(kr, cr), cloned::<EI::Key>(xr, cx)]
            cloned::<TI::Key>(kl, cl) && cloned::<TI::Key>(kr, cr) && cloned::<EI::Key>(xr, cx) && self.ctx().type_interner().valid_key(cl)
                && self.ctx().type_interner().valid_key(cr) && self.ctx().extractor_interner().valid_key(cx) && call_ensures(
                O::is_subtype,
                (&self.ops(), &self.ctx().type_interner().item(cl), &self.ctx().type_interner().item(cr)),
                true,
            ) && call_ensures(
                O::extractor_covers_type,
                (&self.ops(), &self.ctx().extractor_interner().item(cx), &self.ctx().type_interner().item(cl), arity as usize),
                true,
            )
    }

    /// Subtracting `right` from the union of the decomposition of the type
    /// of a clone of `kl` left `remainder`, as the engine answered.
    pub closed spec fn left_decomposition_leaves(self, kl: TI::Key, right: Space<O::Type, O::Extractor>, remainder: nat) -> bool {
        exists|copy: TI::Key, union: Space<O::Type, O::Extractor>|
            #![trigger cloned::<TI::Key>(kl, copy), self.decomposed_near(copy, union)]
            cloned::<TI::Key>(kl, copy) && self.decomposed_near(copy, union) && self.answered_subtraction(union, right) == Some(remainder)
    }

    /// Subtracting the union of the decomposition of the type of a clone of
    /// `kr` from the space with id `left` left `remainder`, as the engine
    /// answered.
    pub closed spec fn right_decomposition_leaves(self, left: nat, kr: TI::Key, remainder: nat) -> bool {
        exists|copy: TI::Key, union: Space<O::Type, O::Extractor>|
            #![trigger cloned::<TI::Key>(kr, copy), self.decomposed_near(copy, union)]
            cloned::<TI::Key>(kr, copy) && self.decomposed_near(copy, union) && self.answered_subtraction(Space::with_id(left), union)
                == Some(remainder)
    }

    /// The engine answered `subspace` to whether the union of the
    /// decomposition of the type of a clone of `kl` is a subspace of `right`.
    pub closed spec fn left_decomposition_answers(self, kl: TI::Key, right: Space<O::Type, O::Extractor>, subspace: bool) -> bool {
        exists|copy: TI::Key, union: Space<O::Type, O::Extractor>|
            #![trigger cloned::<TI::Key>(kl, copy), self.decomposed_near(copy, union)]
            cloned::<TI::Key>(kl, copy) && self.decomposed_near(copy, union) && self.answered_subspace(union, right) == Some(subspace)
    }

    /// The engine answered `subspace` to whether `left` is a subspace of the
    /// union of the decomposition of the type of a clone of `kr`.
    pub closed spec fn right_decomposition_answers(self, left: Space<O::Type, O::Extractor>, kr: TI::Key, subspace: bool) -> bool {
        exists|copy: TI::Key, union: Space<O::Type, O::Extractor>|
            #![trigger cloned::<TI::Key>(kr, copy), self.decomposed_near(copy, union)]
            cloned::<TI::Key>(kr, copy) && self.decomposed_near(copy, union) && self.answered_subspace(left, union) == Some(subspace)
    }

    proof fn lemma_decomposition_answers_kept(self, prev: Self, left: Space<O::Type, O::Extractor>, right: Space<O::Type, O::Extractor>, kl: TI::Key, kr: TI::Key)
        requires
            self.ctx().extends(prev.ctx()),
            self.ops() == prev.ops(),
            self.keeps_simplifications(prev),
            self.keeps_subspaces(prev),
            self.keeps_subtractions(prev),
        ensures
            forall|r: nat| #[trigger] prev.left_decomposition_leaves(kl, right, r) ==> self.left_decomposition_leaves(kl, right, r),
            forall|l: nat, r: nat| #[trigger] prev.right_decomposition_leaves(l, kr, r) ==> self.right_decomposition_leaves(l, kr, r),
            forall|b: bool| #[trigger] prev.left_decomposition_answers(kl, right, b) ==> self.left_decomposition_answers(kl, right, b),
            forall|b: bool| #[trigger] prev.right_decomposition_answers(left, kr, b) ==> self.right_decomposition_answers(left, kr, b),
    {
        assert forall|r: nat| #[trigger] prev.left_decomposition_leaves(kl, right, r) implies self.left_decomposition_leaves(kl, right, r) by {
            let (copy, union) = choose|copy: TI::Key, union: Space<O::Type, O::Extractor>|
                cloned::<TI::Key>(kl, copy) && prev.decomposed_near(copy, union) && prev.answered_subtraction(union, right) == Some(r);
            self.lemma_decomposed_near_kept(prev, copy, union);
            self.lemma_subtraction_answer_kept(prev, union, right);
        }
        assert forall|l: nat, r: nat| #[trigger] prev.right_decomposition_leaves(l, kr, r) implies self.right_decomposition_leaves(l, kr, r) by {
            let (copy, union) = choose|copy: TI::Key, union: Space<O::Type, O::Extractor>|
                cloned::<TI::Key>(kr, copy) && prev.decomposed_near(copy, union) && prev.answered_subtraction(Space::with_id(l), union) == Some(r);
            self.lemma_decomposed_near_kept(prev, copy, union);
            self.lemma_subtraction_answer_kept(prev, Space::with_id(l), union);
        }
        assert forall|b: bool| #[trigger] prev.left_decomposition_answers(kl, right, b) implies self.left_decomposition_answers(kl, right, b) by {
            let (copy, union) = choose|copy: TI::Key, union: Space<O::Type, O::Extractor>|
                cloned::<TI::Key>(kl, copy) && prev.decomposed_near(copy, union) && prev.answered_subspace(union, right) == Some(b);
            self.lemma_decomposed_near_kept(prev, copy, union);
            self.lemma_answered_kept(prev, union, right);
        }
        assert forall|b: bool| #[trigger] prev.right_decomposition_answers(left, kr, b) implies self.right_decomposition_answers(left, kr, b) by {
            let (copy, union) = choose|copy: TI::Key, union: Space<O::Type, O::Extractor>|
                cloned::<TI::Key>(kr, copy) && prev.decomposed_near(copy, union) && prev.answered_subspace(left, union) == Some(b);
            self.lemma_decomposed_near_kept(prev, copy, union);
            self.lemma_answered_kept(prev, left, union);
        }
    }

    /// The operations may have answered that the type of a clone of `kl` is
    /// no subtype of that of a clone of `kr`, or that the extractor of a
    /// clone of `xr` does not cover it with `arity` parameters.
    pub closed spec fn cannot_lift(self, kl: TI::Key, kr: TI::Key, xr: EI::Key, arity: nat) -> bool {
        exists|cl: TI::Key, cr: TI::Key, cx: EI::Key|
            #![trigger cloned::<TI::Key>(kl, cl), cloned::<TI::Key>(kr, cr), cloned::<EI::Key>(xr, cx)]
            cloned::<TI::Key>(kl, cl) && cloned::<TI::Key>(kr, cr) && cloned::<EI::Key>(xr, cx) && self.ctx().type_interner().valid_key(cl)
                && self.ctx().type_interner().valid_key(cr) && self.ctx().extractor_interner().valid_key(cx) && (call_ensures(
                O::is_subtype,
                (&self.ops(), &self.ctx().type_interner().item(cl), &self.ctx().type_interner().item(cr)),
                false,
            ) || call_ensures(
                O::extractor_covers_type,
                (&self.ops(), &self.ctx().extractor_interner().item(cx), &self.ctx().type_interner().item(cl), arity as usize),
                false,
            ))
    }

    /// The operations may have answered that the type of a clone of `key`
    /// does not decompose.
    pub closed spec fn type_undecomposable(self, key: TI::Key) -> bool {
        exists|copy: TI::Key|
            #![trigger self.decomposes_as(copy, Decomposition::NotDecomposable)]
            cloned::<TI::Key>(key, copy) && self.decomposes_as(copy, Decomposition::NotDecomposable)
    }

    proof fn lemma_cannot_lift_extends(self, prev: Self, kl: TI::Key, kr: TI::Key, xr: EI::Key, arity: nat)
        requires
            self.ctx().extends(prev.ctx()),
            self.ops() == prev.ops(),
            prev.cannot_lift(kl, kr, xr, arity),
        ensures
            self.cannot_lift(kl, kr, xr, arity),
    {
        let (cl, cr, cx) = choose|cl: TI::Key, cr: TI::Key, cx: EI::Key|
            cloned::<TI::Key>(kl, cl) && cloned::<TI::Key>(kr, cr) && cloned::<EI::Key>(xr, cx) && prev.ctx().type_interner().valid_key(cl)
                && prev.ctx().type_interner().valid_key(cr) && prev.ctx().extractor_interner().valid_key(cx) && (call_ensures(
                O::is_subtype,
                (&prev.ops(), &prev.ctx().type_interner().item(cl), &prev.ctx().type_interner().item(cr)),
                false,
            ) || call_ensures(
                O::extractor_covers_type,
                (&prev.ops(), &prev.ctx().extractor_interner().item(cx), &prev.ctx().type_interner().item(cl), arity as usize),
                false,
            ));
        assert(self.ctx().type_interner().item(cl) == prev.ctx().type_interner().item(cl));
        assert(self.ctx().type_interner().item(cr) == prev.ctx().type_interner().item(cr));
        assert(self.ctx().extractor_interner().item(cx) == prev.ctx().extractor_interner().item(cx));
    }

    proof fn lemma_type_undecomposable_extends(self, prev: Self, key: TI::Key)
        requires
            self.ctx().extends(prev.ctx()),
            self.ops() == prev.ops(),
            prev.type_undecomposable(key),
        ensures
            self.type_undecomposable(key),
    {
        let copy = choose|copy: TI::Key| cloned::<TI::Key>(key, copy) && prev.decomposes_as(copy, Decomposition::NotDecomposable);
        self.lemma_decomposes_as_extends(prev, copy, Decomposition::NotDecomposable);
    }

    proof fn lemma_type_decomposes_witness(self, key: TI::Key, copy: TI::Key)
        requires
            cloned::<TI::Key>(key, copy),
            exists|decomposition: Decomposition<TI::Key>|
                #[trigger] self.decomposes_as(copy, decomposition) && !(decomposition is NotDecomposable),
        ensures
            self.type_decomposes(key),
    {
        let decomposition = choose|decomposition: Decomposition<TI::Key>|
            #[trigger] self.decomposes_as(copy, decomposition) && !(decomposition is NotDecomposable);
        assert(cloned::<TI::Key>(key, copy) && self.decomposes_as(copy, decomposition));
    }

    proof fn lemma_type_decomposes_extends(self, prev: Self, key: TI::Key)
        requires
            self.ctx().extends(prev.ctx()),
            self.ops() == prev.ops(),
            prev.type_decomposes(key),
        ensures
            self.type_decomposes(key),
    {
        let (copy, decomposition) = choose|copy: TI::Key, decomposition: Decomposition<TI::Key>|
            cloned::<TI::Key>(key, copy) && prev.decomposes_as(copy, decomposition) && !(decomposition is NotDecomposable);
        self.lemma_decomposes_as_extends(prev, copy, decomposition);
    }

    proof fn lemma_lifts_into_extends(self, prev: Self, kl: TI::Key, kr: TI::Key, xr: EI::Key, arity: nat)
        requires
            self.ctx().extends(prev.ctx()),
            self.ops() == prev.ops(),
            prev.lifts_into(kl, kr, xr, arity),
        ensures
            self.lifts_into(kl, kr, xr, arity),
    {
        let (cl, cr, cx) = choose|cl: TI::Key, cr: TI::Key, cx: EI::Key|
            cloned::<TI::Key>(kl, cl) && cloned::<TI::Key>(kr, cr) && cloned::<EI::Key>(xr, cx) && prev.ctx().type_interner().valid_key(cl)
                && prev.ctx().type_interner().valid_key(cr) && prev.ctx().extractor_interner().valid_key(cx) && call_ensures(
                O::is_subtype,
                (&prev.ops(), &prev.ctx().type_interner().item(cl), &prev.ctx().type_interner().item(cr)),
                true,
            ) && call_ensures(
                O::extractor_covers_type,
                (&prev.ops(), &prev.ctx().extractor_interner().item(cx), &prev.ctx().type_interner().item(cl), arity as usize),
                true,
            );
        assert(self.ctx().type_interner().item(cl) == prev.ctx().type_interner().item(cl));
        assert(self.ctx().type_interner().item(cr) == prev.ctx().type_interner().item(cr));
        assert(self.ctx().extractor_interner().item(cx) == prev.ctx().extractor_interner().item(cx));
    }

    /// The facts that the cases of two type spaces, and of a type space and a
    /// product, rest on stay as the engine evolves.
    proof fn lemma_type_facts_extend(self, prev: Self, left: Space<O::Type, O::Extractor>, right: Space<O::Type, O::Extractor>)
        requires
            self.ctx().extends(prev.ctx()),
            self.ops() == prev.ops(),
        ensures
            (prev.ctx().node(left), prev.ctx().node(right)) matches (SpaceNode::Type { value_type: kl, .. }, SpaceNode::Type { value_type: kr, .. })
                ==> (prev.subtype_answered(kl, kr, true) ==> self.subtype_answered(kl, kr, true)) && (prev.type_decomposes(kl)
                ==> self.type_decomposes(kl)) && (prev.type_decomposes(kr) ==> self.type_decomposes(kr)),
            (prev.ctx().node(left), prev.ctx().node(right)) matches (
                SpaceNode::Type { value_type: kl, .. },
                SpaceNode::Product { value_type: kr, extractor: xr, parameters: pr },
            ) ==> (prev.lifts_into(kl, kr, xr, pr@.len()) ==> self.lifts_into(kl, kr, xr, pr@.len())) && (prev.type_decomposes(kl)
                ==> self.type_decomposes(kl)) && (prev.cannot_lift(kl, kr, xr, pr@.len()) ==> self.cannot_lift(kl, kr, xr, pr@.len()))
                && (prev.type_undecomposable(kl) ==> self.type_undecomposable(kl)),
            (prev.ctx().node(left), prev.ctx().node(right)) matches (SpaceNode::Product { value_type: kl, .. }, SpaceNode::Type { value_type: kr, .. })
                ==> (prev.subtype_answered(kl, kr, true) ==> self.subtype_answered(kl, kr, true)) && (prev.type_decomposes(kr)
                ==> self.type_decomposes(kr)),
    {
        match (prev.ctx().node(left), prev.ctx().node(right)) {
            (SpaceNode::Type { value_type: kl, .. }, SpaceNode::Type { value_type: kr, .. }) => {
                self.lemma_subtype_answered_kept_all(prev, kl, kr);
                if prev.type_decomposes(kl) {
                    self.lemma_type_decomposes_extends(prev, kl);
                }
                if prev.type_decomposes(kr) {
                    self.lemma_type_decomposes_extends(prev, kr);
                }
            },
            (SpaceNode::Type { value_type: kl, .. }, SpaceNode::Product { value_type: kr, extractor: xr, parameters: pr }) => {
                if prev.lifts_into(kl, kr, xr, pr@.len()) {
                    self.lemma_lifts_into_extends(prev, kl, kr, xr, pr@.len());
                }
                if prev.type_decomposes(kl) {
                    self.lemma_type_decomposes_extends(prev, kl);
                }
                if prev.cannot_lift(kl, kr, xr, pr@.len()) {
                    self.lemma_cannot_lift_extends(prev, kl, kr, xr, pr@.len());
                }
                if prev.type_undecomposable(kl) {
                    self.lemma_type_undecomposable_extends(prev, kl);
                }
            },
            (SpaceNode::Product { value_type: kl, .. }, SpaceNode::Type { value_type: kr, .. }) => {
                self.lemma_subtype_answered_kept_all(prev, kl, kr);
                if prev.type_decomposes(kr) {
                    self.lemma_type_decomposes_extends(prev, kr);
                }
            },
            _ => {},
        }
    }

    proof fn lemma_atomic_witness(
        self,
        kl: TI::Key,
        kr: TI::Key,
        cl: TI::Key,
        cr: TI::Key,
        intersection: Space<O::Type, O::Extractor>,
    )
        requires
            cloned::<TI::Key>(kl, cl),
            cloned::<TI::Key>(kr, cr),
            self.ctx().type_interner().valid_key(cl),
            self.ctx().type_interner().valid_key(cr),
            exists|answer: AtomicIntersection<O::Type>|
                #[trigger] call_ensures(
                    O::intersect_atomic_types,
                    (&self.ops(), &self.ctx().type_interner().item(cl), &self.ctx().type_interner().item(cr)),
                    answer,
                ) && (answer is Empty <==> intersection@ == 0),
        ensures
            self.atomic_answered(kl, kr, intersection),
    {
        let answer = choose|answer: AtomicIntersection<O::Type>|
            #[trigger] call_ensures(
                O::intersect_atomic_types,
                (&self.ops(), &self.ctx().type_interner().item(cl), &self.ctx().type_interner().item(cr)),
                answer,
            ) && (answer is Empty <==> intersection@ == 0);
        assert(cloned::<TI::Key>(kl, cl) && cloned::<TI::Key>(kr, cr));
    }

    proof fn lemma_atomic_answered_kept(self, prev: Self, kl: TI::Key, kr: TI::Key, intersection: Space<O::Type, O::Extractor>)
        requires
            self.ctx().extends(prev.ctx()),
            self.ops() == prev.ops(),
            prev.atomic_answered(kl, kr, intersection),
        ensures
            self.atomic_answered(kl, kr, intersection),
    {
        let (cl, cr, answer) = choose|cl: TI::Key, cr: TI::Key, answer: AtomicIntersection<O::Type>|
            cloned::<TI::Key>(kl, cl) && cloned::<TI::Key>(kr, cr) && prev.ctx().type_interner().valid_key(cl)
                && prev.ctx().type_interner().valid_key(cr) && call_ensures(
                O::intersect_atomic_types,
                (&prev.ops(), &prev.ctx().type_interner().item(cl), &prev.ctx().type_interner().item(cr)),
                answer,
            ) && (answer is Empty <==> intersection@ == 0);
        assert(self.ctx().type_interner().item(cl) == prev.ctx().type_interner().item(cl));
        assert(self.ctx().type_interner().item(cr) == prev.ctx().type_interner().item(cr));
    }

    /// The intersection `intersection` of two distinct non-empty spaces agrees
    /// with the operations and with the engine's other answers: a union on
    /// either side is the union of the intersections of its members with the
    /// other side; of two type spaces, or a product and a type space, the
    /// left one stays when the operations find its type a subtype of the
    /// other's (the right one, for a type space and a product); two products
    /// of the same arity and equivalent extractors give nothing when the
    /// intersection of some pair of parameters simplifies to nothing, and
    /// otherwise a product of those simplified intersections.
    pub closed spec fn intersection_case_ok(
        self,
        left: Space<O::Type, O::Extractor>,
        right: Space<O::Type, O::Extractor>,
        intersection: Space<O::Type, O::Extractor>,
    ) -> bool {
        match (self.ctx().node(left), self.ctx().node(right)) {
            (_, SpaceNode::Union(members)) => self.members_intersect_to(members@, left, false, intersection),
            (SpaceNode::Union(members), _) => self.members_intersect_to(members@, right, true, intersection),
            (SpaceNode::Type { value_type: kl, .. }, SpaceNode::Type { value_type: kr, .. }) => {
                ||| intersection == left && self.subtype_answered(kl, kr, true)
                ||| intersection == right && self.subtype_answered(kl, kr, false) && self.subtype_answered(kr, kl, true)
                ||| self.subtype_answered(kl, kr, false) && self.subtype_answered(kr, kl, false) && self.atomic_answered(
                    kl,
                    kr,
                    intersection,
                ) && (intersection@ != 0 ==> self.ctx().node(intersection) is Type)
            },
            (SpaceNode::Product { value_type: kl, parameters: pl, .. }, SpaceNode::Type { value_type: kr, .. }) => {
                ||| intersection == left && (self.subtype_answered(kl, kr, true) || self.subtype_answered(kr, kl, true))
                ||| self.subtype_answered(kl, kr, false) && self.subtype_answered(kr, kl, false) && self.atomic_answered(
                    kl,
                    kr,
                    intersection,
                ) && (intersection@ != 0 ==> self.ctx().node(intersection) is Product && product_parameters(
                    self.ctx().node(intersection),
                ) == pl@)
            },
            (SpaceNode::Type { value_type: kl, .. }, SpaceNode::Product { value_type: kr, parameters: pr, .. }) => {
                ||| intersection == right && self.subtype_answered(kr, kl, true)
                ||| intersection == left && self.subtype_answered(kr, kl, false) && self.subtype_answered(kl, kr, true)
                ||| self.subtype_answered(kr, kl, false) && self.subtype_answered(kl, kr, false) && self.atomic_answered(
                    kl,
                    kr,
                    intersection,
                ) && (intersection@ != 0 ==> self.ctx().node(intersection) is Product && product_parameters(
                    self.ctx().node(intersection),
                ) == pr@)
            },
            (
                SpaceNode::Product { value_type: kl, extractor: xl, parameters: pl },
                SpaceNode::Product { value_type: kr, extractor: xr, parameters: pr },
            ) => {
                ||| pl@.len() != pr@.len() && self.atomic_answered(kl, kr, intersection)
                ||| self.atomic_answered(kl, kr, intersection) && exists|cl: EI::Key, cr: EI::Key|
                    #![trigger cloned::<EI::Key>(xl, cl), cloned::<EI::Key>(xr, cr)]
                    cloned::<EI::Key>(xl, cl) && cloned::<EI::Key>(xr, cr) && self.ctx().extractor_interner().valid_key(cl)
                        && self.ctx().extractor_interner().valid_key(cr) && call_ensures(
                        O::extractors_are_equivalent,
                        (&self.ops(), &self.ctx().extractor_interner().item(cl), &self.ctx().extractor_interner().item(cr)),
                        false,
                    )
                ||| intersection@ == 0 && exists|j: int|
                    0 <= j < pl@.len() && #[trigger] self.parameter_intersection(pl@[j], pr@[j]) == Some(0nat)
                ||| {
                    &&& intersection@ != 0
                    &&& self.ctx().node(intersection) is Product
                    &&& product_parameters(self.ctx().node(intersection)).len() == pl@.len()
                    &&& forall|j: int|
                        0 <= j < pl@.len() ==> #[trigger] self.parameter_intersection(pl@[j], pr@[j]) == Some(
                            product_parameters(self.ctx().node(intersection))[j]@,
                        )
                }
            },
            _ => true,
        }
    }

    /// Every remembered intersection is for two distinct non-empty spaces of
    /// the context and, while steps remain, agrees case by case with the
    /// engine's other answers.
    pub closed spec fn intersections_ok(self) -> bool {
        let intersections = space_pair_entries(self.caches.memo.intersection_results);
        &&& forall|k: (usize, usize)| #[trigger]
            intersections.contains_key(k) ==> 0 < k.0 <= self.ctx().nodes().len() && 0 < k.1 <= self.ctx().nodes().len() && k.0 != k.1
        &&& self.steps() > 0 ==> forall|k: (usize, usize)| #[trigger]
            intersections.contains_key(k) ==> self.intersection_case_ok(
                Space::with_id(k.0 as nat),
                Space::with_id(k.1 as nat),
                Space::with_id(intersections[k] as nat),
            )
    }

    /// Every intersection that `prev` remembered is still remembered, with the
    /// same value.
    pub closed spec fn keeps_intersections(self, prev: Self) -> bool {
        forall|k: (usize, usize)|
            #[trigger] space_pair_entries(prev.caches.memo.intersection_results).contains_key(k) ==> space_pair_entries(
                self.caches.memo.intersection_results,
            ).contains_key(k) && space_pair_entries(self.caches.memo.intersection_results)[k] == space_pair_entries(
                prev.caches.memo.intersection_results,
            )[k]
    }

    /// The engine remembers nothing: no decomposition and no result of a space
    /// operation.
    pub closed spec fn caches_empty(self) -> bool {
        &&& self.caches.decompositions@.len() == 0
        &&& self.caches.decomposed_unions@.len() == 0
        &&& forall|k| !#[trigger] space_id_entries(self.caches.memo.simplified_spaces).contains_key(k)
        &&& forall|k| !#[trigger] space_flag_entries(self.caches.memo.subspace_results).contains_key(k)
        &&& forall|k| !#[trigger] space_pair_entries(self.caches.memo.intersection_results).contains_key(k)
        &&& forall|k| !#[trigger] space_pair_entries(self.caches.memo.subtraction_results).contains_key(k)
        &&& forall|k| !#[trigger] space_list_entries(self.caches.memo.flattened_spaces).contains_key(k)
    }

    /// `decomposition` has the shape of an answer that the operations gave
    /// for the type that `key` stands for.
    pub closed spec fn answered_decomposition(self, key: TI::Key, decomposition: Decomposition<TI::Key>) -> bool {
        exists|asked: TI::Key, answer: Decomposition<O::Type>|
            #![trigger call_ensures(O::decompose_type, (&self.ops(), &self.ctx().type_interner().item(asked)), answer)]
            (asked == key || cloned::<TI::Key>(asked, key)) && self.ctx().type_interner().valid_key(asked)
                && call_ensures(O::decompose_type, (&self.ops(), &self.ctx().type_interner().item(asked)), answer)
                && same_shape(decomposition, answer)
    }

    /// The operations, asked for the type of `key` or of a key that `==` finds
    /// equal to it, gave an answer of the shape of `decomposition`.
    pub closed spec fn decomposes_as(self, key: TI::Key, decomposition: Decomposition<TI::Key>) -> bool {
        exists|k: TI::Key|
            (k == key || k.eq_spec(&key)) && #[trigger] self.answered_decomposition(k, decomposition)
    }

    /// What the operations answered stays answered as the engine evolves.
    pub(crate) proof fn lemma_decomposes_as_extends(self, prev: Self, key: TI::Key, decomposition: Decomposition<TI::Key>)
        requires
            self.ctx().extends(prev.ctx()),
            self.ops() == prev.ops(),
            prev.decomposes_as(key, decomposition),
        ensures
            self.decomposes_as(key, decomposition),
    {
        let k = choose|k: TI::Key| (k == key || k.eq_spec(&key)) && #[trigger] prev.answered_decomposition(k, decomposition);
        let (asked, answer) = choose|asked: TI::Key, answer: Decomposition<O::Type>|
            (asked == k || cloned::<TI::Key>(asked, k)) && prev.ctx().type_interner().valid_key(asked)
                && call_ensures(O::decompose_type, (&prev.ops(), &prev.ctx().type_interner().item(asked)), answer)
                && same_shape(decomposition, answer);
        assert(self.ctx().type_interner().item(asked) == prev.ctx().type_interner().item(asked));
        assert(call_ensures(O::decompose_type, (&self.ops(), &self.ctx().type_interner().item(asked)), answer));
        assert(self.answered_decomposition(k, decomposition));
    }

    /// Each memoized decomposition has the shape of an answer of the
    /// operations for its type.
    pub closed spec fn decompositions_answered(self) -> bool {
        forall|i: int|
            0 <= i < self.caches.decompositions@.len() ==> self.answered_decomposition(
                (#[trigger] self.caches.decompositions@[i]).0,
                self.caches.decompositions@[i].1,
            )
    }

    /// The memoized decompositions hold valid keys and valid spaces.
    pub closed spec fn caches_ok(self) -> bool {
        &&& self.decompositions_answered()
        &&& forall|i: int|
            0 <= i < self.caches.decompositions@.len() ==> {
                let entry = #[trigger] self.caches.decompositions@[i];
                &&& self.ctx().type_interner().valid_key(entry.0)
                &&& entry.1 matches Decomposition::Parts(parts) ==> forall|j: int|
                    0 <= j < parts@.len() ==> self.ctx().type_interner().valid_key(
                        #[trigger] parts@[j],
                    )
            }
        &&& forall|i: int|
            0 <= i < self.caches.decomposed_unions@.len() ==> {
                let entry = #[trigger] self.caches.decomposed_unions@[i];
                &&& self.ctx().type_interner().valid_key(entry.0)
                &&& self.ctx().valid_space(entry.1)
            }
        &&& self.decomposed_unions_ok()
        &&& self.memo_ok()
    }

    /// Where the keys' `==` is specified, every remembered union of a
    /// decomposition is the one of the type its key was cloned from.
    pub closed spec fn decomposed_unions_ok(self) -> bool {
        TI::Key::obeys_eq_spec() ==> forall|i: int|
            0 <= i < self.caches.decomposed_unions@.len() ==> self.union_entry_ok(#[trigger] self.caches.decomposed_unions@[i])
    }

    /// The remembered union `entry.1` is the union of the decomposition of
    /// the type that the key `entry.0` was cloned from.
    pub closed spec fn union_entry_ok(self, entry: (TI::Key, Space<O::Type, O::Extractor>)) -> bool {
        exists|source: TI::Key|
            #![trigger self.decomposed_via(source, entry.1)]
            cloned::<TI::Key>(source, entry.0) && self.decomposed_via(source, entry.1)
    }

    /// `space` is the union of the type spaces of the parts that the
    /// operations decompose the type `key` into, and the empty space when the
    /// type decomposes into nothing or does not decompose.
    pub closed spec fn decomposed_via(self, key: TI::Key, space: Space<O::Type, O::Extractor>) -> bool {
        exists|decomposition: Decomposition<TI::Key>|
            #![trigger self.decomposes_as(key, decomposition)]
            self.decomposes_as(key, decomposition) && match decomposition {
                Decomposition::Parts(parts) => exists|spaces: Seq<Space<O::Type, O::Extractor>>|
                    #![trigger self.ctx().union_member_list(spaces)]
                    spaces.len() == parts@.len() && (forall|j: int|
                        0 <= j < spaces.len() ==> #[trigger] self.is_part_space(spaces[j], parts@[j])) && self.ctx().is_union_of(
                        space,
                        self.ctx().union_member_list(spaces),
                    ),
                _ => space@ == 0,
            }
    }

    /// `space` is the union of the decomposition of the type `key`, or of a
    /// type a clone of which `==` finds equal to `key`.
    pub closed spec fn decomposed_near(self, key: TI::Key, space: Space<O::Type, O::Extractor>) -> bool {
        ||| self.decomposed_via(key, space)
        ||| exists|source: TI::Key, copy: TI::Key|
            #![trigger cloned::<TI::Key>(source, copy), self.decomposed_via(source, space)]
            cloned::<TI::Key>(source, copy) && copy.eq_spec(&key) && self.decomposed_via(source, space)
    }

    proof fn lemma_decomposed_via_kept(self, prev: Self, key: TI::Key, space: Space<O::Type, O::Extractor>)
        requires
            self.ctx().extends(prev.ctx()),
            self.ops() == prev.ops(),
            prev.decomposed_via(key, space),
        ensures
            self.decomposed_via(key, space),
    {
        let decomposition = choose|decomposition: Decomposition<TI::Key>|
            #![trigger prev.decomposes_as(key, decomposition)]
            prev.decomposes_as(key, decomposition) && match decomposition {
                Decomposition::Parts(parts) => exists|spaces: Seq<Space<O::Type, O::Extractor>>|
                    #![trigger prev.ctx().union_member_list(spaces)]
                    spaces.len() == parts@.len() && (forall|j: int|
                        0 <= j < spaces.len() ==> #[trigger] prev.is_part_space(spaces[j], parts@[j])) && prev.ctx().is_union_of(
                        space,
                        prev.ctx().union_member_list(spaces),
                    ),
                _ => space@ == 0,
            };
        self.lemma_decomposes_as_extends(prev, key, decomposition);
        if let Decomposition::Parts(parts) = decomposition {
            let spaces = choose|spaces: Seq<Space<O::Type, O::Extractor>>|
                #![trigger prev.ctx().union_member_list(spaces)]
                spaces.len() == parts@.len() && (forall|j: int|
                    0 <= j < spaces.len() ==> #[trigger] prev.is_part_space(spaces[j], parts@[j])) && prev.ctx().is_union_of(
                    space,
                    prev.ctx().union_member_list(spaces),
                );
            assert forall|j: int| 0 <= j < spaces.len() implies #[trigger] self.is_part_space(spaces[j], parts@[j]) by {
                self.lemma_part_space_kept(prev, spaces[j], parts@[j]);
            }
            assert forall|j: int| 0 <= j < spaces.len() implies prev.ctx().valid_space(#[trigger] spaces[j]) by {
                assert(prev.is_part_space(spaces[j], parts@[j]));
            }
            self.ctx().lemma_union_member_list_extends(prev.ctx(), spaces);
            self.ctx().lemma_is_union_of_extends(prev.ctx(), space, prev.ctx().union_member_list(spaces));
        }
    }

    proof fn lemma_decomposed_near_kept(self, prev: Self, key: TI::Key, space: Space<O::Type, O::Extractor>)
        requires
            self.ctx().extends(prev.ctx()),
            self.ops() == prev.ops(),
            prev.decomposed_near(key, space),
        ensures
            self.decomposed_near(key, space),
    {
        if prev.decomposed_via(key, space) {
            self.lemma_decomposed_via_kept(prev, key, space);
        } else {
            let (source, copy) = choose|source: TI::Key, copy: TI::Key|
                cloned::<TI::Key>(source, copy) && copy.eq_spec(&key) && prev.decomposed_via(source, space);
            self.lemma_decomposed_via_kept(prev, source, space);
        }
    }

    proof fn lemma_decomposed_unions_kept(self, prev: Self)
        requires
            self.ctx().extends(prev.ctx()),
            self.ops() == prev.ops(),
            self.caches.decomposed_unions == prev.caches.decomposed_unions,
            prev.decomposed_unions_ok(),
        ensures
            self.decomposed_unions_ok(),
    {
        if TI::Key::obeys_eq_spec() {
            assert forall|i: int| 0 <= i < self.caches.decomposed_unions@.len() implies self.union_entry_ok(
                #[trigger] self.caches.decomposed_unions@[i],
            ) by {
                let entry = prev.caches.decomposed_unions@[i];
                assert(self.caches.decomposed_unions@[i] == entry);
                assert(prev.union_entry_ok(entry));
                let source = choose|source: TI::Key| cloned::<TI::Key>(source, entry.0) && prev.decomposed_via(source, entry.1);
                self.lemma_decomposed_via_kept(prev, source, entry.1);
                assert(cloned::<TI::Key>(source, entry.0) && self.decomposed_via(source, entry.1));
            }
        }
    }

    /// The memoized space results name nodes of the context, and each agrees
    /// with what the operation that stored it promises.
    pub closed spec fn memo_ok(self) -> bool {
        self.memo_bounds() && self.simplifications_ok() && self.subspaces_ok() && self.subtractions_ok()
            && self.intersections_ok()
    }

    /// Each remembered simplification is what simplifying its space gives.
    pub closed spec fn simplifications_ok(self) -> bool {
        forall|k: usize|
            #[trigger] space_id_entries(self.caches.memo.simplified_spaces).contains_key(k) ==> self.simplifies_to(
                Space::with_id(k as nat),
                Space::with_id(space_id_entries(self.caches.memo.simplified_spaces)[k] as nat),
            )
    }

    /// The memoized space results name nodes of the context.
    pub closed spec fn memo_bounds(self) -> bool {
        let nodes = self.ctx().nodes();
        let simplified = space_id_entries(self.caches.memo.simplified_spaces);
        let intersections = space_pair_entries(self.caches.memo.intersection_results);
        let subtractions = space_pair_entries(self.caches.memo.subtraction_results);
        let flattened = space_list_entries(self.caches.memo.flattened_spaces);
        &&& forall|k: usize| #[trigger]
            simplified.contains_key(k) ==> {
                &&& k <= nodes.len()
                &&& simplified[k] <= nodes.len()
                &&& k == 0 ==> simplified[k] == 0
            }
        &&& forall|k: (usize, usize)| #[trigger]
            intersections.contains_key(k) ==> intersections[k] <= nodes.len()
        &&& forall|k: (usize, usize)| #[trigger]
            subtractions.contains_key(k) ==> subtractions[k] <= nodes.len()
        &&& forall|k: usize| #[trigger]
            flattened.contains_key(k) ==> {
                let ids = flattened[k]@;
                &&& ids.len() >= 1
                &&& forall|j: int|
                    0 <= j < ids.len() ==> #[trigger] ids[j] <= nodes.len() && (ids[j] != 0
                        ==> !(nodes[ids[j] - 1] is Union)) && (k != 0 ==> ids[j] != 0)
            }
    }

    proof fn lemma_simplifications_frame(self, prev: Self)
        requires
            prev.memo_bounds(),
            prev.simplifications_ok(),
            self.caches.memo.simplified_spaces == prev.caches.memo.simplified_spaces,
            self.ctx().extends(prev.ctx()),
            self.ops() == prev.ops(),
        ensures
            self.simplifications_ok(),
    {
        let simplified = space_id_entries(self.caches.memo.simplified_spaces);
        assert forall|k: usize| #[trigger] simplified.contains_key(k) implies self.simplifies_to(
            Space::with_id(k as nat),
            Space::with_id(simplified[k] as nat),
        ) by {
            let space = Space::<O::Type, O::Extractor>::with_id(k as nat);
            let result = Space::<O::Type, O::Extractor>::with_id(simplified[k] as nat);
            space.lemma_with_id(k as nat);
            result.lemma_with_id(simplified[k] as nat);
            self.lemma_simplifies_to_extends(prev, space, result);
        }
    }


    /// A node of `prev` is the same node later.
    pub(crate) proof fn lemma_node_kept(self, prev: Self, space: Space<O::Type, O::Extractor>)
        requires
            self.ctx().extends(prev.ctx()),
            0 < space@ <= prev.ctx().nodes().len(),
        ensures
            self.ctx().node(space) == prev.ctx().node(space),
    {
        assert(self.ctx().nodes()[space@ - 1] == prev.ctx().nodes()[space@ - 1]);
    }

    /// An answer that `prev` gave stays given as the engine keeps what it
    /// remembered.
    pub(crate) proof fn lemma_answered_kept(self, prev: Self, left: Space<O::Type, O::Extractor>, right: Space<O::Type, O::Extractor>)
        requires
            self.keeps_simplifications(prev),
            self.keeps_subspaces(prev),
            prev.answered_subspace(left, right) is Some,
        ensures
            self.answered_subspace(left, right) == prev.answered_subspace(left, right),
    {
        left.lemma_id_fits();
        right.lemma_id_fits();
        assert(space_id_entries(prev.caches.memo.simplified_spaces).contains_key(left@ as usize));
        assert(space_id_entries(prev.caches.memo.simplified_spaces).contains_key(right@ as usize));
        assert(self.remembered_simplification(left) == prev.remembered_simplification(left));
        assert(self.remembered_simplification(right) == prev.remembered_simplification(right));
        let l = prev.remembered_simplification(left)->Some_0;
        let r = prev.remembered_simplification(right)->Some_0;
        if l != 0 && l != r && r != 0 {
            let key = (Space::<O::Type, O::Extractor>::with_id(l)@ as usize, Space::<O::Type, O::Extractor>::with_id(r)@ as usize);
            assert(space_flag_entries(prev.caches.memo.subspace_results).contains_key(key));
        }
    }

    /// What an answer agreed with stays so as the engine evolves.
    proof fn lemma_subspace_case_extends(self, prev: Self, left: Space<O::Type, O::Extractor>, right: Space<O::Type, O::Extractor>, subspace: bool)
        requires
            self.ctx().extends(prev.ctx()),
            self.ops() == prev.ops(),
            self.keeps_simplifications(prev),
            self.keeps_subspaces(prev),
            self.keeps_subtractions(prev),
            0 < left@ <= prev.ctx().nodes().len(),
            0 < right@ <= prev.ctx().nodes().len(),
            prev.subspace_case_ok(left, right, subspace),
        ensures
            self.subspace_case_ok(left, right, subspace),
    {
        assert(self.ctx().nodes()[left@ - 1] == prev.ctx().nodes()[left@ - 1]);
        assert(self.ctx().nodes()[right@ - 1] == prev.ctx().nodes()[right@ - 1]);
        self.lemma_type_facts_extend(prev, left, right);
        match (prev.ctx().node(left), prev.ctx().node(right)) {
            (SpaceNode::Type { value_type: kl, .. }, SpaceNode::Type { value_type: kr, .. }) => {
                self.lemma_decomposition_answers_kept(prev, left, right, kl, kr);
            },
            (SpaceNode::Type { value_type: kl, .. }, SpaceNode::Product { value_type: kr, .. }) => {
                self.lemma_decomposition_answers_kept(prev, left, right, kl, kr);
            },
            (SpaceNode::Product { value_type: kl, .. }, SpaceNode::Type { value_type: kr, .. }) => {
                self.lemma_decomposition_answers_kept(prev, left, right, kl, kr);
            },
            _ => {},
        }
        match (prev.ctx().node(left), prev.ctx().node(right)) {
            (SpaceNode::Union(members), _) => {
                if subspace {
                    assert forall|j: int| 0 <= j < members@.len() implies #[trigger] self.answered_subspace(members@[j], right) == Some(true) by {
                        assert(prev.answered_subspace(members@[j], right) == Some(true));
                        self.lemma_answered_kept(prev, members@[j], right);
                    }
                } else {
                    let j = choose|j: int| 0 <= j < members@.len() && #[trigger] prev.answered_subspace(members@[j], right) == Some(false);
                    self.lemma_answered_kept(prev, members@[j], right);
                }
            },
            (SpaceNode::Type { value_type: kl, .. }, SpaceNode::Union(members)) => {
                if TI::Key::obeys_eq_spec() && subspace {
                    if exists|j: int| 0 <= j < members@.len() && #[trigger] prev.answered_subspace(left, members@[j]) == Some(true) {
                        let j = choose|j: int| 0 <= j < members@.len() && #[trigger] prev.answered_subspace(left, members@[j]) == Some(true);
                        self.lemma_answered_kept(prev, left, members@[j]);
                    } else {
                        let (copy, filtered) = choose|copy: TI::Key, filtered: Space<O::Type, O::Extractor>|
                            #![trigger cloned::<TI::Key>(kl, copy), prev.filtered_to(copy, right, filtered)]
                            cloned::<TI::Key>(kl, copy) && prev.filtered_to(copy, right, filtered) && filtered@ == 0;
                        self.lemma_filtered_to_kept(prev, copy, right, filtered);
                    }
                }
                if !subspace {
                    assert forall|j: int| 0 <= j < members@.len() implies #[trigger] self.answered_subspace(left, members@[j]) == Some(false) by {
                        assert(prev.answered_subspace(left, members@[j]) == Some(false));
                        self.lemma_answered_kept(prev, left, members@[j]);
                    }
                }
            },
            (SpaceNode::Type { value_type: kl, .. }, SpaceNode::Type { value_type: kr, .. }) => {
                if !subspace {
                    let (cl, cr) = choose|cl: TI::Key, cr: TI::Key|
                        cloned::<TI::Key>(kl, cl) && cloned::<TI::Key>(kr, cr) && prev.ctx().type_interner().valid_key(cl)
                            && prev.ctx().type_interner().valid_key(cr) && call_ensures(
                            O::is_subtype,
                            (&prev.ops(), &prev.ctx().type_interner().item(cl), &prev.ctx().type_interner().item(cr)),
                            false,
                        );
                    assert(self.ctx().type_interner().item(cl) == prev.ctx().type_interner().item(cl));
                    assert(self.ctx().type_interner().item(cr) == prev.ctx().type_interner().item(cr));
                }
            },
            (SpaceNode::Product { value_type: kl, .. }, SpaceNode::Type { value_type: kr, .. }) => {
                let (cl, cr) = choose|cl: TI::Key, cr: TI::Key|
                    cloned::<TI::Key>(kl, cl) && cloned::<TI::Key>(kr, cr) && prev.ctx().type_interner().valid_key(cl)
                        && prev.ctx().type_interner().valid_key(cr) && call_ensures(
                        O::is_subtype,
                        (&prev.ops(), &prev.ctx().type_interner().item(cl), &prev.ctx().type_interner().item(cr)),
                        subspace,
                    );
                assert(self.ctx().type_interner().item(cl) == prev.ctx().type_interner().item(cl));
                assert(self.ctx().type_interner().item(cr) == prev.ctx().type_interner().item(cr));
            },
            (
                SpaceNode::Product { extractor: xl, parameters: pl, .. },
                SpaceNode::Product { extractor: xr, parameters: pr, .. },
            ) => {
                if subspace {
                    assert forall|j: int| 0 <= j < pl@.len() implies #[trigger] self.answered_subspace(pl@[j], pr@[j]) == Some(true) by {
                        assert(prev.answered_subspace(pl@[j], pr@[j]) == Some(true));
                        self.lemma_answered_kept(prev, pl@[j], pr@[j]);
                    }
                } else if pl@.len() == pr@.len() {
                    if exists|j: int| 0 <= j < pl@.len() && #[trigger] prev.answered_subspace(pl@[j], pr@[j]) == Some(false) {
                        let j = choose|j: int| 0 <= j < pl@.len() && #[trigger] prev.answered_subspace(pl@[j], pr@[j]) == Some(false);
                        self.lemma_answered_kept(prev, pl@[j], pr@[j]);
                    } else {
                        let (cl, cr) = choose|cl: EI::Key, cr: EI::Key|
                            cloned::<EI::Key>(xl, cl) && cloned::<EI::Key>(xr, cr) && prev.ctx().extractor_interner().valid_key(cl)
                                && prev.ctx().extractor_interner().valid_key(cr) && call_ensures(
                                O::extractors_are_equivalent,
                                (&prev.ops(), &prev.ctx().extractor_interner().item(cl), &prev.ctx().extractor_interner().item(cr)),
                                false,
                            );
                        assert(self.ctx().extractor_interner().item(cl) == prev.ctx().extractor_interner().item(cl));
                        assert(self.ctx().extractor_interner().item(cr) == prev.ctx().extractor_interner().item(cr));
                    }
                }
            },
            (SpaceNode::Product { .. }, SpaceNode::Union(_)) => {
                let (rest, simplified) = choose|rest: nat, simplified: nat|
                    prev.answered_subtraction(left, right) == Some(rest) && prev.simplification_is(rest, simplified) && (subspace
                        <==> simplified == 0);
                self.lemma_subtraction_answer_kept(prev, left, right);
                self.lemma_simplification_kept(prev, Space::with_id(rest));
                assert(self.simplification_is(rest, simplified));
            },
            _ => {},
        }
    }

    /// The remembered subspace answers stay valid when nothing they rest on is
    /// lost.
    proof fn lemma_subspaces_frame(self, prev: Self)
        requires
            prev.subspaces_ok(),
            self.caches.memo.subspace_results == prev.caches.memo.subspace_results,
            self.ctx().extends(prev.ctx()),
            self.ops() == prev.ops(),
            self.keeps_simplifications(prev),
            self.keeps_subtractions(prev),
            self.steps() <= prev.steps(),
        ensures
            self.subspaces_ok(),
    {
        let answers = space_flag_entries(self.caches.memo.subspace_results);
        assert(self.keeps_subspaces(prev));
        if self.steps() > 0 {
            assert forall|k: (usize, usize)| #[trigger] answers.contains_key(k) implies self.subspace_case_ok(
                Space::with_id(k.0 as nat),
                Space::with_id(k.1 as nat),
                answers[k],
            ) by {
                let l = Space::<O::Type, O::Extractor>::with_id(k.0 as nat);
                let r = Space::<O::Type, O::Extractor>::with_id(k.1 as nat);
                l.lemma_with_id(k.0 as nat);
                r.lemma_with_id(k.1 as nat);
                self.lemma_subspace_case_extends(prev, l, r, answers[k]);
            }
        }
    }


    pub(crate) proof fn lemma_simplification_kept(self, prev: Self, space: Space<O::Type, O::Extractor>)
        requires
            self.keeps_simplifications(prev),
            prev.remembered_simplification(space) is Some,
        ensures
            self.remembered_simplification(space) == prev.remembered_simplification(space),
    {
        assert(space_id_entries(prev.caches.memo.simplified_spaces).contains_key(space@ as usize));
    }

    pub(crate) proof fn lemma_subtraction_answer_kept(self, prev: Self, left: Space<O::Type, O::Extractor>, right: Space<O::Type, O::Extractor>)
        requires
            self.keeps_subtractions(prev),
            prev.answered_subtraction(left, right) is Some,
        ensures
            self.answered_subtraction(left, right) == prev.answered_subtraction(left, right),
    {
        if left@ != 0 && right@ != 0 && left@ != right@ {
            assert(space_pair_entries(prev.caches.memo.subtraction_results).contains_key((left@ as usize, right@ as usize)));
        }
    }

    proof fn lemma_parameter_reduced_extends(self, prev: Self, left: Space<O::Type, O::Extractor>, right: Space<O::Type, O::Extractor>)
        requires
            self.keeps_simplifications(prev),
            self.keeps_subspaces(prev),
            self.keeps_subtractions(prev),
            prev.parameter_reduced(left, right),
        ensures
            self.parameter_reduced(left, right),
    {
        let (rest, simplified) = choose|rest: nat, simplified: nat|
            prev.answered_subtraction(left, right) == Some(rest) && prev.remembered_simplification(Space::with_id(rest))
                == Some(simplified) && prev.answered_subspace(left, Space::with_id(simplified)) == Some(false);
        self.lemma_subtraction_answer_kept(prev, left, right);
        self.lemma_simplification_kept(prev, Space::with_id(rest));
        self.lemma_answered_kept(prev, left, Space::with_id(simplified));
        assert(self.answered_subtraction(left, right) == Some(rest) && self.remembered_simplification(Space::with_id(rest))
            == Some(simplified));
    }

    /// What a remainder agreed with stays so as the engine evolves.
    proof fn lemma_subtraction_case_extends(
        self,
        prev: Self,
        left: Space<O::Type, O::Extractor>,
        right: Space<O::Type, O::Extractor>,
        remainder: Space<O::Type, O::Extractor>,
    )
        requires
            self.ctx().extends(prev.ctx()),
            self.ops() == prev.ops(),
            self.keeps_simplifications(prev),
            self.keeps_subspaces(prev),
            self.keeps_subtractions(prev),
            self.keeps_flattenings(prev),
            0 < left@ <= prev.ctx().nodes().len(),
            0 < right@ <= prev.ctx().nodes().len(),
            prev.subtraction_case_ok(left, right, remainder),
        ensures
            self.subtraction_case_ok(left, right, remainder),
    {
        self.lemma_node_kept(prev, left);
        self.lemma_node_kept(prev, right);
        self.lemma_type_facts_extend(prev, left, right);
        match (prev.ctx().node(left), prev.ctx().node(right)) {
            (SpaceNode::Type { value_type: kl, .. }, SpaceNode::Type { value_type: kr, .. }) => {
                self.lemma_decomposition_answers_kept(prev, left, right, kl, kr);
            },
            (SpaceNode::Type { value_type: kl, .. }, SpaceNode::Product { value_type: kr, .. }) => {
                self.lemma_decomposition_answers_kept(prev, left, right, kl, kr);
            },
            (SpaceNode::Product { value_type: kl, .. }, SpaceNode::Type { value_type: kr, .. }) => {
                self.lemma_decomposition_answers_kept(prev, left, right, kl, kr);
            },
            _ => {},
        }
        match (prev.ctx().node(left), prev.ctx().node(right)) {
            (SpaceNode::Union(members), _) => {
                assert forall|j: int| 0 <= j < members@.len() implies #[trigger] self.answered_subtraction(members@[j], right)
                    == prev.answered_subtraction(members@[j], right) by {
                    assert(prev.answered_subtraction(members@[j], right) is Some);
                    self.lemma_subtraction_answer_kept(prev, members@[j], right);
                }
                let (remainders, stages) = choose|remainders: Seq<Space<O::Type, O::Extractor>>, stages: Seq<Seq<Space<O::Type, O::Extractor>>>|
                    remainders.len() == members@.len() && (forall|j: int|
                        0 <= j < members@.len() ==> prev.ctx().valid_space(#[trigger] remainders[j]) && prev.answered_subtraction(
                            members@[j],
                            right,
                        ) == Some(remainders[j]@)) && prev.prunes_to(prev.ctx().union_member_list(remainders), stages)
                        && prev.ctx().is_union_of(remainder, stages.last());
                assert forall|j: int| 0 <= j < members@.len() implies self.ctx().valid_space(#[trigger] remainders[j]) && self.answered_subtraction(
                    members@[j],
                    right,
                ) == Some(remainders[j]@) by {
                    assert(prev.ctx().valid_space(remainders[j]));
                    self.lemma_subtraction_answer_kept(prev, members@[j], right);
                }
                self.ctx().lemma_union_member_list_extends(prev.ctx(), remainders);
                self.lemma_prunes_to_kept(prev, prev.ctx().union_member_list(remainders), stages);
                self.ctx().lemma_is_union_of_extends(prev.ctx(), remainder, stages.last());
                assert(self.pruned_remainders(members@, right, remainder));
                if forall|j: int| 0 <= j < members@.len() ==> #[trigger] self.answered_subtraction(members@[j], right) == Some(0nat) {
                    assert forall|j: int| 0 <= j < members@.len() implies #[trigger] prev.answered_subtraction(members@[j], right)
                        == Some(0nat) by {
                        assert(self.answered_subtraction(members@[j], right) == Some(0nat));
                    }
                }
                assert(self.subtraction_case_ok(left, right, remainder));
            },
            (SpaceNode::Type { value_type: kl, .. }, SpaceNode::Type { value_type: kr, .. }) => {
                if remainder@ != 0 {
                    let (cl, cr) = choose|cl: TI::Key, cr: TI::Key|
                        cloned::<TI::Key>(kl, cl) && cloned::<TI::Key>(kr, cr) && prev.ctx().type_interner().valid_key(cl)
                            && prev.ctx().type_interner().valid_key(cr) && call_ensures(
                            O::is_subtype,
                            (&prev.ops(), &prev.ctx().type_interner().item(cl), &prev.ctx().type_interner().item(cr)),
                            false,
                        );
                    assert(self.ctx().type_interner().item(cl) == prev.ctx().type_interner().item(cl));
                    assert(self.ctx().type_interner().item(cr) == prev.ctx().type_interner().item(cr));
                }
                assert(self.subtraction_case_ok(left, right, remainder));
            },
            (SpaceNode::Product { value_type: kl, .. }, SpaceNode::Type { value_type: kr, .. }) => {
                if prev.remembered_simplification(left) is Some {
                    self.lemma_simplification_kept(prev, left);
                }
                if remainder@ != 0 {
                    let (cl, cr) = choose|cl: TI::Key, cr: TI::Key|
                        cloned::<TI::Key>(kl, cl) && cloned::<TI::Key>(kr, cr) && prev.ctx().type_interner().valid_key(cl)
                            && prev.ctx().type_interner().valid_key(cr) && call_ensures(
                            O::is_subtype,
                            (&prev.ops(), &prev.ctx().type_interner().item(cl), &prev.ctx().type_interner().item(cr)),
                            false,
                        );
                    assert(self.ctx().type_interner().item(cl) == prev.ctx().type_interner().item(cl));
                    assert(self.ctx().type_interner().item(cr) == prev.ctx().type_interner().item(cr));
                }
                assert(self.subtraction_case_ok(left, right, remainder));
            },
            (
                SpaceNode::Product { extractor: xl, parameters: pl, .. },
                SpaceNode::Product { extractor: xr, parameters: pr, .. },
            ) => {
                if remainder != left {
                    assert forall|j: int| 0 <= j < pl@.len() implies #[trigger] self.parameter_reduced(pl@[j], pr@[j]) by {
                        self.lemma_parameter_reduced_extends(prev, pl@[j], pr@[j]);
                    }
                }
                if prev.rebuilt_from_slots(pl@, pr@, remainder) {
                    self.lemma_rebuilt_from_slots_kept(prev, pl@, pr@, remainder);
                }
                if remainder@ == 0 && forall|j: int| 0 <= j < pl@.len() ==> #[trigger] prev.parameter_emptied(pl@[j], pr@[j]) {
                    assert forall|j: int| 0 <= j < pl@.len() implies #[trigger] self.parameter_emptied(pl@[j], pr@[j]) by {
                        self.lemma_parameter_emptied_extends(prev, pl@[j], pr@[j]);
                    }
                }
                if prev.extractors_answered(xl, xr, false) {
                    self.lemma_extractors_answered_extends(prev, xl, xr, false);
                }
                if exists|j: int| 0 <= j < pl@.len() && #[trigger] prev.parameter_kept(pl@[j], pr@[j]) {
                    let j = choose|j: int| 0 <= j < pl@.len() && #[trigger] prev.parameter_kept(pl@[j], pr@[j]);
                    self.lemma_parameter_kept_extends(prev, pl@[j], pr@[j]);
                }
                assert(self.subtraction_case_ok(left, right, remainder));
            },
            (SpaceNode::Product { .. }, SpaceNode::Union(members)) => {
                self.lemma_subtracts_each_kept(prev, left, members@, remainder);
            },
            (SpaceNode::Type { value_type: kl, .. }, SpaceNode::Union(members)) => {
                if TI::Key::obeys_eq_spec() {
                    if exists|copy: TI::Key, filtered: Space<O::Type, O::Extractor>|
                        #![trigger cloned::<TI::Key>(kl, copy), prev.filtered_to(copy, right, filtered)]
                        cloned::<TI::Key>(kl, copy) && prev.filtered_to(copy, right, filtered) && prev.answered_subtraction(filtered, right)
                            == Some(remainder@) {
                        let (copy, filtered) = choose|copy: TI::Key, filtered: Space<O::Type, O::Extractor>|
                            #![trigger cloned::<TI::Key>(kl, copy), prev.filtered_to(copy, right, filtered)]
                            cloned::<TI::Key>(kl, copy) && prev.filtered_to(copy, right, filtered) && prev.answered_subtraction(filtered, right)
                                == Some(remainder@);
                        self.lemma_filtered_to_kept(prev, copy, right, filtered);
                        self.lemma_subtraction_answer_kept(prev, filtered, right);
                    } else {
                        let copy = choose|copy: TI::Key|
                            #![trigger prev.decomposes_as(copy, Decomposition::NotDecomposable)]
                            cloned::<TI::Key>(kl, copy) && prev.decomposes_as(copy, Decomposition::NotDecomposable);
                        self.lemma_decomposes_as_extends(prev, copy, Decomposition::NotDecomposable);
                        self.lemma_subtracts_each_kept(prev, left, members@, remainder);
                    }
                }
            },
            _ => {},
        }
    }

    proof fn lemma_subtractions_frame(self, prev: Self)
        requires
            prev.subtractions_ok(),
            self.caches.memo.subtraction_results == prev.caches.memo.subtraction_results,
            self.ctx().extends(prev.ctx()),
            self.ops() == prev.ops(),
            self.keeps_simplifications(prev),
            self.keeps_subspaces(prev),
            self.keeps_flattenings(prev),
            self.steps() <= prev.steps(),
        ensures
            self.subtractions_ok(),
    {
        let remainders = space_pair_entries(self.caches.memo.subtraction_results);
        assert(self.keeps_subtractions(prev));
        if self.steps() > 0 {
            assert forall|k: (usize, usize)| #[trigger] remainders.contains_key(k) implies self.subtraction_case_ok(
                Space::with_id(k.0 as nat),
                Space::with_id(k.1 as nat),
                Space::with_id(remainders[k] as nat),
            ) by {
                let l = Space::<O::Type, O::Extractor>::with_id(k.0 as nat);
                let r = Space::<O::Type, O::Extractor>::with_id(k.1 as nat);
                l.lemma_with_id(k.0 as nat);
                r.lemma_with_id(k.1 as nat);
                self.lemma_subtraction_case_extends(prev, l, r, Space::with_id(remainders[k] as nat));
            }
        }
    }


    pub(crate) proof fn lemma_intersection_answer_kept(self, prev: Self, left: Space<O::Type, O::Extractor>, right: Space<O::Type, O::Extractor>)
        requires
            self.keeps_intersections(prev),
            prev.answered_intersection(left, right) is Some,
        ensures
            self.answered_intersection(left, right) == prev.answered_intersection(left, right),
    {
        if left@ != 0 && right@ != 0 && left@ != right@ {
            assert(space_pair_entries(prev.caches.memo.intersection_results).contains_key((left@ as usize, right@ as usize)));
        }
    }

    proof fn lemma_parameter_intersection_kept(self, prev: Self, left: Space<O::Type, O::Extractor>, right: Space<O::Type, O::Extractor>)
        requires
            self.keeps_intersections(prev),
            self.keeps_simplifications(prev),
            prev.parameter_intersection(left, right) is Some,
        ensures
            self.parameter_intersection(left, right) == prev.parameter_intersection(left, right),
    {
        self.lemma_intersection_answer_kept(prev, left, right);
        let id = prev.answered_intersection(left, right)->Some_0;
        self.lemma_simplification_kept(prev, Space::with_id(id));
    }

    proof fn lemma_members_intersect_extends(
        self,
        prev: Self,
        members: Seq<Space<O::Type, O::Extractor>>,
        other: Space<O::Type, O::Extractor>,
        members_on_left: bool,
        result: Space<O::Type, O::Extractor>,
    )
        requires
            self.ctx().extends(prev.ctx()),
            self.keeps_intersections(prev),
            prev.members_intersect_to(members, other, members_on_left, result),
        ensures
            self.members_intersect_to(members, other, members_on_left, result),
    {
        let mapped = choose|mapped: Seq<Space<O::Type, O::Extractor>>|
            mapped.len() == members.len() && (forall|j: int|
                0 <= j < members.len() ==> prev.ctx().valid_space(#[trigger] mapped[j]) && prev.member_intersection(
                    members[j],
                    other,
                    members_on_left,
                ) == Some(mapped[j]@)) && prev.ctx().is_union_of(result, prev.ctx().union_member_list(mapped));
        assert forall|j: int| 0 <= j < members.len() implies self.ctx().valid_space(#[trigger] mapped[j])
            && self.member_intersection(members[j], other, members_on_left) == Some(mapped[j]@) by {
            assert(prev.ctx().valid_space(mapped[j]));
            if members_on_left {
                self.lemma_intersection_answer_kept(prev, members[j], other);
            } else {
                self.lemma_intersection_answer_kept(prev, other, members[j]);
            }
        }
        self.ctx().lemma_union_member_list_extends(prev.ctx(), mapped);
        self.ctx().lemma_is_union_of_extends(prev.ctx(), result, prev.ctx().union_member_list(mapped));
    }

    /// What an intersection agreed with stays so as the engine evolves.
    proof fn lemma_intersection_case_extends(
        self,
        prev: Self,
        left: Space<O::Type, O::Extractor>,
        right: Space<O::Type, O::Extractor>,
        intersection: Space<O::Type, O::Extractor>,
    )
        requires
            self.ctx().extends(prev.ctx()),
            self.ops() == prev.ops(),
            self.keeps_simplifications(prev),
            self.keeps_intersections(prev),
            0 < left@ <= prev.ctx().nodes().len(),
            0 < right@ <= prev.ctx().nodes().len(),
            intersection@ <= prev.ctx().nodes().len(),
            prev.intersection_case_ok(left, right, intersection),
        ensures
            self.intersection_case_ok(left, right, intersection),
    {
        self.lemma_node_kept(prev, left);
        self.lemma_node_kept(prev, right);
        if intersection@ != 0 {
            self.lemma_node_kept(prev, intersection);
        }
        match (prev.ctx().node(left), prev.ctx().node(right)) {
            (_, SpaceNode::Union(members)) => {
                self.lemma_members_intersect_extends(prev, members@, left, false, intersection);
                assert(self.intersection_case_ok(left, right, intersection));
            },
            (SpaceNode::Union(members), _) => {
                self.lemma_members_intersect_extends(prev, members@, right, true, intersection);
                assert(self.intersection_case_ok(left, right, intersection));
            },
            (SpaceNode::Type { value_type: kl, .. }, SpaceNode::Type { value_type: kr, .. }) => {
                self.lemma_subtype_answered_kept_all(prev, kl, kr);
                if prev.atomic_answered(kl, kr, intersection) {
                    self.lemma_atomic_answered_kept(prev, kl, kr, intersection);
                }
                assert(self.intersection_case_ok(left, right, intersection));
            },
            (SpaceNode::Product { value_type: kl, .. }, SpaceNode::Type { value_type: kr, .. }) => {
                self.lemma_subtype_answered_kept_all(prev, kl, kr);
                if prev.atomic_answered(kl, kr, intersection) {
                    self.lemma_atomic_answered_kept(prev, kl, kr, intersection);
                }
                assert(self.intersection_case_ok(left, right, intersection));
            },
            (SpaceNode::Type { value_type: kl, .. }, SpaceNode::Product { value_type: kr, .. }) => {
                self.lemma_subtype_answered_kept_all(prev, kl, kr);
                if prev.atomic_answered(kl, kr, intersection) {
                    self.lemma_atomic_answered_kept(prev, kl, kr, intersection);
                }
                assert(self.intersection_case_ok(left, right, intersection));
            },
            (
                SpaceNode::Product { value_type: kl, extractor: xl, parameters: pl },
                SpaceNode::Product { value_type: kr, extractor: xr, parameters: pr },
            ) => {
                if prev.atomic_answered(kl, kr, intersection) {
                    self.lemma_atomic_answered_kept(prev, kl, kr, intersection);
                }
                if pl@.len() != pr@.len() && prev.atomic_answered(kl, kr, intersection) {
                    assert(self.intersection_case_ok(left, right, intersection));
                } else {
                    if prev.atomic_answered(kl, kr, intersection) && exists|cl: EI::Key, cr: EI::Key|
                        #![trigger cloned::<EI::Key>(xl, cl), cloned::<EI::Key>(xr, cr)]
                        cloned::<EI::Key>(xl, cl) && cloned::<EI::Key>(xr, cr) && prev.ctx().extractor_interner().valid_key(cl)
                            && prev.ctx().extractor_interner().valid_key(cr) && call_ensures(
                            O::extractors_are_equivalent,
                            (&prev.ops(), &prev.ctx().extractor_interner().item(cl), &prev.ctx().extractor_interner().item(cr)),
                            false,
                        ) {
                        let (cl, cr) = choose|cl: EI::Key, cr: EI::Key|
                            cloned::<EI::Key>(xl, cl) && cloned::<EI::Key>(xr, cr) && prev.ctx().extractor_interner().valid_key(cl)
                                && prev.ctx().extractor_interner().valid_key(cr) && call_ensures(
                                O::extractors_are_equivalent,
                                (&prev.ops(), &prev.ctx().extractor_interner().item(cl), &prev.ctx().extractor_interner().item(cr)),
                                false,
                            );
                        assert(self.ctx().extractor_interner().item(cl) == prev.ctx().extractor_interner().item(cl));
                        assert(self.ctx().extractor_interner().item(cr) == prev.ctx().extractor_interner().item(cr));
                        assert(self.intersection_case_ok(left, right, intersection));
                    } else if intersection@ == 0 && exists|j: int|
                        0 <= j < pl@.len() && #[trigger] prev.parameter_intersection(pl@[j], pr@[j]) == Some(0nat) {
                        let j = choose|j: int| 0 <= j < pl@.len() && #[trigger] prev.parameter_intersection(pl@[j], pr@[j]) == Some(0nat);
                        self.lemma_parameter_intersection_kept(prev, pl@[j], pr@[j]);
                        assert(self.intersection_case_ok(left, right, intersection));
                    } else {
                        assert forall|j: int| 0 <= j < pl@.len() implies #[trigger] self.parameter_intersection(pl@[j], pr@[j]) == Some(
                            product_parameters(self.ctx().node(intersection))[j]@,
                        ) by {
                            assert(prev.parameter_intersection(pl@[j], pr@[j]) == Some(product_parameters(prev.ctx().node(intersection))[j]@));
                            self.lemma_parameter_intersection_kept(prev, pl@[j], pr@[j]);
                        }
                        assert(self.intersection_case_ok(left, right, intersection));
                    }
                }
                assert(self.intersection_case_ok(left, right, intersection));
            },
            _ => {},
        }
    }

    proof fn lemma_intersections_frame(self, prev: Self)
        requires
            prev.intersections_ok(),
            prev.memo_bounds(),
            self.caches.memo.intersection_results == prev.caches.memo.intersection_results,
            self.ctx().extends(prev.ctx()),
            self.ops() == prev.ops(),
            self.keeps_simplifications(prev),
            self.steps() <= prev.steps(),
        ensures
            self.intersections_ok(),
    {
        let intersections = space_pair_entries(self.caches.memo.intersection_results);
        assert(self.keeps_intersections(prev));
        if self.steps() > 0 {
            assert forall|k: (usize, usize)| #[trigger] intersections.contains_key(k) implies self.intersection_case_ok(
                Space::with_id(k.0 as nat),
                Space::with_id(k.1 as nat),
                Space::with_id(intersections[k] as nat),
            ) by {
                let l = Space::<O::Type, O::Extractor>::with_id(k.0 as nat);
                let r = Space::<O::Type, O::Extractor>::with_id(k.1 as nat);
                let v = Space::<O::Type, O::Extractor>::with_id(intersections[k] as nat);
                l.lemma_with_id(k.0 as nat);
                r.lemma_with_id(k.1 as nat);
                v.lemma_with_id(intersections[k] as nat);
                self.lemma_intersection_case_extends(prev, l, r, v);
            }
        }
    }

    proof fn lemma_memo_frame(self, prev: Self)
        requires
            prev.memo_ok(),
            self.caches.memo == prev.caches.memo,
            self.ctx().extends(prev.ctx()),
            self.ops() == prev.ops(),
            self.steps() <= prev.steps(),
        ensures
            self.memo_ok(),
    {
        self.lemma_simplifications_frame(prev);
        assert(self.keeps_simplifications(prev));
        assert(self.keeps_subtractions(prev));
        self.lemma_subspaces_frame(prev);
        assert(self.keeps_subspaces(prev));
        self.lemma_subtractions_frame(prev);
        self.lemma_intersections_frame(prev);
        let nodes = self.ctx().nodes();
        let old_nodes = prev.ctx().nodes();
        let simplified = space_id_entries(self.caches.memo.simplified_spaces);
        let flattened = space_list_entries(self.caches.memo.flattened_spaces);
        assert forall|k: usize| #[trigger] simplified.contains_key(k) implies {
            &&& k <= nodes.len()
            &&& simplified[k] <= nodes.len()
            &&& k == 0 ==> simplified[k] == 0
        } by {
        }
        assert forall|k: usize| #[trigger] flattened.contains_key(k) implies {
            let ids = flattened[k]@;
            &&& ids.len() >= 1
            &&& forall|j: int|
                0 <= j < ids.len() ==> #[trigger] ids[j] <= nodes.len() && (ids[j] != 0
                    ==> !(nodes[ids[j] - 1] is Union))
        } by {
            let ids = flattened[k]@;
            assert forall|j: int| 0 <= j < ids.len() implies #[trigger] ids[j] <= nodes.len() && (ids[j]
                != 0 ==> !(nodes[ids[j] - 1] is Union)) by {
                if ids[j] != 0 {
                    assert(nodes[ids[j] - 1] == old_nodes[ids[j] - 1]);
                }
            }
        }
    }

    /// The engine's invariant.
    pub open spec fn wf(self) -> bool {
        self.ctx().wf() && self.caches_ok()
    }

    /// `self` is a later state of `prev`: the context only grew and no step was
    /// given back.
    pub open spec fn evolves(self, prev: Self) -> bool {
        &&& self.wf()
        &&& self.ctx().extends(prev.ctx())
        &&& self.steps() <= prev.steps()
        &&& self.ops() == prev.ops()
        &&& self.keeps_simplifications(prev)
        &&& self.keeps_subspaces(prev)
        &&& self.keeps_subtractions(prev)
        &&& self.keeps_intersections(prev)
        &&& self.keeps_flattenings(prev)
    }

    /// Every flattening that `prev` remembered is still remembered, with the
    /// same spaces.
    pub closed spec fn keeps_flattenings(self, prev: Self) -> bool {
        forall|k: usize|
            #[trigger] space_list_entries(prev.caches.memo.flattened_spaces).contains_key(k) ==> space_list_entries(
                self.caches.memo.flattened_spaces,
            ).contains_key(k) && space_list_entries(self.caches.memo.flattened_spaces)[k]@ == space_list_entries(
                prev.caches.memo.flattened_spaces,
            )[k]@
    }

    /// The product `space` has the type `value_type_key` and the extractor
    /// `extractor`, or keys that `==` finds equal to them.
    pub open spec fn product_keys_are(self, space: Space<O::Type, O::Extractor>, value_type_key: TI::Key, extractor: EI::Key) -> bool {
        self.ctx().node(space) matches SpaceNode::Product { value_type: k, extractor: x, .. } && (k == value_type_key || (
        TI::Key::obeys_eq_spec() ==> k.eq_spec(&value_type_key))) && (x == extractor || (EI::Key::obeys_eq_spec() ==> x.eq_spec(
            &extractor,
        )))
    }

    /// The ids of the spaces that the engine remembers `space` to flatten
    /// into, if any.
    pub closed spec fn remembered_flattening(self, space: Space<O::Type, O::Extractor>) -> Option<Seq<nat>> {
        let flattened = space_list_entries(self.caches.memo.flattened_spaces);
        if flattened.contains_key(space@ as usize) {
            Some(flattened[space@ as usize]@.map_values(|id: usize| id as nat))
        } else {
            None
        }
    }

    pub(crate) proof fn lemma_flattening_kept(self, prev: Self, space: Space<O::Type, O::Extractor>)
        requires
            self.keeps_flattenings(prev),
            prev.remembered_flattening(space) is Some,
        ensures
            self.remembered_flattening(space) == prev.remembered_flattening(space),
    {
        assert(space_list_entries(prev.caches.memo.flattened_spaces).contains_key(space@ as usize));
    }

    /// Every simplification that `prev` remembered is still remembered, with
    /// the same result.
    pub closed spec fn keeps_simplifications(self, prev: Self) -> bool {
        forall|k: usize|
            #[trigger] space_id_entries(prev.caches.memo.simplified_spaces).contains_key(k) ==> space_id_entries(
                self.caches.memo.simplified_spaces,
            ).contains_key(k) && space_id_entries(self.caches.memo.simplified_spaces)[k] == space_id_entries(
                prev.caches.memo.simplified_spaces,
            )[k]
    }

    proof fn lemma_caches_frame(self, prev: Self)
        requires
            prev.caches_ok(),
            self.caches == prev.caches,
            self.ctx().extends(prev.ctx()),
            self.ops() == prev.ops(),
            self.steps() <= prev.steps(),
        ensures
            self.caches_ok(),
    {
        assert forall|i: int| 0 <= i < self.caches.decompositions@.len() implies self.answered_decomposition(
            (#[trigger] self.caches.decompositions@[i]).0,
            self.caches.decompositions@[i].1,
        ) by {
            let entry = self.caches.decompositions@[i];
            assert(prev.answered_decomposition(prev.caches.decompositions@[i].0, prev.caches.decompositions@[i].1));
            let (asked, answer) = choose|asked: TI::Key, answer: Decomposition<O::Type>|
                (asked == entry.0 || cloned::<TI::Key>(asked, entry.0)) && prev.ctx().type_interner().valid_key(asked)
                    && call_ensures(O::decompose_type, (&prev.ops(), &prev.ctx().type_interner().item(asked)), answer)
                    && same_shape(entry.1, answer);
            assert(self.ctx().type_interner().item(asked) == prev.ctx().type_interner().item(asked));
        }
        assert forall|i: int| 0 <= i < self.caches.decompositions@.len() implies {
            let entry = #[trigger] self.caches.decompositions@[i];
            &&& self.ctx().type_interner().valid_key(entry.0)
            &&& entry.1 matches Decomposition::Parts(parts) ==> forall|j: int|
                0 <= j < parts@.len() ==> self.ctx().type_interner().valid_key(#[trigger] parts@[j])
        } by {
            let entry = self.caches.decompositions@[i];
            assert(prev.ctx().type_interner().valid_key(entry.0));
            if let Decomposition::Parts(parts) = entry.1 {
                assert forall|j: int| 0 <= j < parts@.len() implies self.ctx().type_interner().valid_key(#[trigger] parts@[j]) by {
                    assert(prev.ctx().type_interner().valid_key(parts@[j]));
                }
            }
        }
        assert forall|i: int| 0 <= i < self.caches.decomposed_unions@.len() implies {
            let entry = #[trigger] self.caches.decomposed_unions@[i];
            &&& self.ctx().type_interner().valid_key(entry.0)
            &&& self.ctx().valid_space(entry.1)
        } by {
            let entry = self.caches.decomposed_unions@[i];
            assert(prev.ctx().type_interner().valid_key(entry.0));
        }
        self.lemma_decomposed_unions_kept(prev);
        self.lemma_memo_frame(prev);
    }

    pub(crate) proof fn lemma_ticked(self, prev: Self)
        requires
            prev.wf(),
            self.ctx() == prev.ctx(),
            self.caches == prev.caches,
            self.steps() <= prev.steps(),
            self.ops() == prev.ops(),
        ensures
            self.evolves(prev),
    {
        self.lemma_caches_frame(prev);
    }

    /// What the operations decided of a type stays decided as the engine
    /// evolves.
    proof fn lemma_decided_extends(self, prev: Self, key: TI::Key, uninhabited: bool)
        requires
            self.ctx().extends(prev.ctx()),
            self.ops() == prev.ops(),
            prev.decided_uninhabited(key, uninhabited),
        ensures
            self.decided_uninhabited(key, uninhabited),
    {
        if TI::Key::obeys_eq_spec() {
            let (copy, decomposition) = choose|copy: TI::Key, decomposition: Decomposition<TI::Key>|
                cloned::<TI::Key>(key, copy) && #[trigger] prev.decomposes_as(copy, decomposition)
                    && (decomposition is Empty) == uninhabited;
            self.lemma_decomposes_as_extends(prev, copy, decomposition);
        }
    }

    /// What a simplification was stays what it is as the engine evolves: the
    /// nodes, the operations' answers and the remembered simplifications of the
    /// parts all stay.
    proof fn lemma_simplifies_to_extends(self, prev: Self, space: Space<O::Type, O::Extractor>, result: Space<O::Type, O::Extractor>)
        requires
            prev.memo_bounds(),
            self.ctx().extends(prev.ctx()),
            self.ops() == prev.ops(),
            self.keeps_simplifications(prev),
            prev.ctx().valid_space(space),
            prev.ctx().valid_space(result),
            prev.simplifies_to(space, result),
        ensures
            self.simplifies_to(space, result),
    {
        if space@ != 0 {
            assert(self.ctx().nodes()[space@ - 1] == prev.ctx().nodes()[space@ - 1]);
            if result@ != 0 {
                assert(self.ctx().nodes()[result@ - 1] == prev.ctx().nodes()[result@ - 1]);
            }
            match prev.ctx().node(space) {
                SpaceNode::Type { value_type, .. } => {
                    if prev.decided_uninhabited(value_type, true) {
                        self.lemma_decided_extends(prev, value_type, true);
                    }
                    if prev.decided_uninhabited(value_type, false) {
                        self.lemma_decided_extends(prev, value_type, false);
                    }
                },
                SpaceNode::Product { value_type, parameters, .. } => {
                    if prev.decided_uninhabited(value_type, true) {
                        self.lemma_decided_extends(prev, value_type, true);
                    }
                    if prev.decided_uninhabited(value_type, false) {
                        self.lemma_decided_extends(prev, value_type, false);
                    }
                    assert forall|j: int| 0 <= j < parameters@.len() && prev.remembered_simplification(parameters@[j]) is Some
                        implies #[trigger] self.remembered_simplification(parameters@[j]) == prev.remembered_simplification(parameters@[j]) by {
                        assert(space_id_entries(prev.caches.memo.simplified_spaces).contains_key(parameters@[j]@ as usize));
                    }
                    if prev.parameters_simplify_to(space, parameters@, result) {
                        if exists|j: int|
                            0 <= j < parameters@.len() && #[trigger] prev.remembered_simplification(parameters@[j]) == Some(0nat) {
                            let j = choose|j: int|
                                0 <= j < parameters@.len() && #[trigger] prev.remembered_simplification(parameters@[j]) == Some(0nat);
                            assert(self.remembered_simplification(parameters@[j]) == Some(0nat));
                        } else {
                            assert forall|j: int|
                                #![trigger self.remembered_simplification(parameters@[j])]
                                #![trigger prev.remembered_simplification(parameters@[j])]
                                0 <= j < parameters@.len() implies self.remembered_simplification(parameters@[j])
                                    == prev.remembered_simplification(parameters@[j]) by {
                                assert(prev.remembered_simplification(parameters@[j]) is Some);
                            }
                            let unchanged_prev = forall|j: int|
                                0 <= j < parameters@.len() ==> #[trigger] prev.remembered_simplification(parameters@[j]) == Some(
                                    parameters@[j]@,
                                );
                            let unchanged_self = forall|j: int|
                                0 <= j < parameters@.len() ==> #[trigger] self.remembered_simplification(parameters@[j]) == Some(
                                    parameters@[j]@,
                                );
                            assert(unchanged_prev == unchanged_self);
                            if !unchanged_prev {
                                let node = self.ctx().node(result);
                                assert(node == prev.ctx().node(result));
                                assert forall|j: int| 0 <= j < parameters@.len() implies Some(
                                    (#[trigger] product_parameters(node)[j])@,
                                ) == self.remembered_simplification(parameters@[j]) by {
                                    assert(Some(product_parameters(node)[j]@) == prev.remembered_simplification(parameters@[j]));
                                }
                            }
                            assert(self.parameters_simplify_to(space, parameters@, result));
                        }
                    }
                },
                SpaceNode::Union(members) => {
                    let simplified = choose|simplified: Seq<Space<O::Type, O::Extractor>>|
                        #![trigger prev.ctx().union_member_list(simplified)]
                        simplified.len() == members@.len() && (forall|j: int|
                            0 <= j < members@.len() ==> prev.remembered_simplification(members@[j]) == Some((#[trigger] simplified[j])@))
                            && prev.ctx().is_union_of(result, prev.ctx().union_member_list(simplified));
                    assert forall|j: int| 0 <= j < simplified.len() implies prev.ctx().valid_space(#[trigger] simplified[j]) by {
                        assert(prev.remembered_simplification(members@[j]) == Some(simplified[j]@));
                        assert(space_id_entries(prev.caches.memo.simplified_spaces).contains_key(members@[j]@ as usize));
                    }
                    assert forall|j: int| 0 <= j < members@.len() implies self.remembered_simplification(members@[j]) == Some(
                        (#[trigger] simplified[j])@,
                    ) by {
                        assert(prev.remembered_simplification(members@[j]) == Some(simplified[j]@));
                        assert(space_id_entries(prev.caches.memo.simplified_spaces).contains_key(members@[j]@ as usize));
                    }
                    self.ctx().lemma_union_member_list_extends(prev.ctx(), simplified);
                    self.ctx().lemma_is_union_of_extends(prev.ctx(), result, prev.ctx().union_member_list(simplified));
                },
            }
        }
    }

    /// A remembered simplification stays remembered as the engine evolves.
    pub(crate) proof fn lemma_remembered_kept(self, prev: Self, space: Space<O::Type, O::Extractor>)
        requires
            self.evolves(prev),
            prev.remembered_simplification(space) is Some,
        ensures
            self.remembered_simplification(space) == prev.remembered_simplification(space),
    {
    }

    pub(crate) proof fn lemma_evolves_refl(self)
        requires
            self.wf(),
        ensures
            self.evolves(self),
    {
    }

    pub(crate) proof fn lemma_evolves_trans(c: Self, b: Self, a: Self)
        requires
            c.evolves(b),
            b.evolves(a),
        ensures
            c.evolves(a),
    {
        SpaceContext::lemma_extends_trans(c.ctx(), b.ctx(), a.ctx());
    }

    /// Creates a new engine for an operations implementation.
    pub fn new(operations: O, context: &'a mut SpaceContext<O::Type, O::Extractor, TI, EI>) -> (engine: Self)
        requires
            old(context).wf(),
        ensures
            engine.wf(),
            engine.ctx() == *old(context),
            engine.steps() == u64::MAX,
            engine.ops() == operations,
            engine.caches_empty(),
    {
        SpaceEngine {
            operations,
            context,
            caches: TypeCaches {
                decompositions: Vec::new(),
                decomposed_unions: Vec::new(),
                memo: SpaceCaches::new(),
            },
            budget: u64::MAX,
        }
    }

    /// Returns the underlying operations implementation.
    pub fn operations(&self) -> (operations: &O)
        ensures
            *operations == self.ops(),
    {
        &self.operations
    }

    /// Returns the space context used by the engine.
    pub fn context(&self) -> (context: &SpaceContext<O::Type, O::Extractor, TI, EI>)
        ensures
            *context == self.ctx(),
    {
        self.context
    }

    /// The steps left in the budget. While steps remain after a call, every
    /// answer the engine gave in it is one it computed in full.
    pub fn steps_left(&self) -> (steps: u64)
        ensures
            steps == self.steps(),
    {
        self.budget
    }

    /// Clears all memoized results.
    pub fn clear_caches(&mut self)
        requires
            old(self).wf(),
        ensures
            final(self).wf(),
            final(self).ctx() == old(self).ctx(),
            final(self).steps() == old(self).steps(),
            final(self).ops() == old(self).ops(),
            final(self).caches_empty(),
    {
        self.caches = TypeCaches {
                decompositions: Vec::new(),
                decomposed_unions: Vec::new(),
                memo: SpaceCaches::new(),
            };
    }

    /// Spends one step of the budget; `false` when it is already spent.
    pub(crate) fn tick(&mut self) -> (ok: bool)
        ensures
            final(self).ctx() == old(self).ctx(),
            final(self).caches == old(self).caches,
            final(self).ops() == old(self).ops(),
            ok == (old(self).steps() > 0),
            ok ==> final(self).steps() == old(self).steps() - 1,
            old(self).wf() ==> final(self).evolves(*old(self)),
            !ok ==> final(self).steps() == old(self).steps(),
    {
        let ghost prev = *self;
        let ok = self.budget != 0;
        if ok {
            self.budget = self.budget - 1;
        }
        proof {
            if prev.wf() {
                self.lemma_ticked(prev);
            }
        }
        ok
    }

    pub(crate) fn clone_type_key(&self, key: &TI::Key) -> (copy: TI::Key)
        requires
            self.ctx().type_interner().valid_key(*key),
        ensures
            self.ctx().type_interner().valid_key(copy),
            cloned::<TI::Key>(*key, copy),
    {
        let copy = key.clone();
        proof {
            self.ctx().type_interner().lemma_cloned_key_is_valid(*key, copy);
        }
        copy
    }

    fn clone_extractor_key(&self, key: &EI::Key) -> (copy: EI::Key)
        requires
            self.ctx().extractor_interner().valid_key(*key),
        ensures
            self.ctx().extractor_interner().valid_key(copy),
            cloned::<EI::Key>(*key, copy),
    {
        let copy = key.clone();
        proof {
            self.ctx().extractor_interner().lemma_cloned_key_is_valid(*key, copy);
        }
        copy
    }

    pub(crate) fn copy_spaces(spaces: &Vec<Space<O::Type, O::Extractor>>) -> (copy: Vec<Space<O::Type, O::Extractor>>)
        ensures
            copy@ == spaces@,
    {
        let mut copy: Vec<Space<O::Type, O::Extractor>> = Vec::new();
        let mut i: usize = 0;
        while i < spaces.len()
            invariant
                i <= spaces@.len(),
                copy@ == spaces@.take(i as int),
            decreases spaces@.len() - i,
        {
            copy.push(spaces[i]);
            proof {
                assert(spaces@.take(i + 1) =~= spaces@.take(i as int).push(spaces@[i as int]));
            }
            i = i + 1;
        }
        proof {
            assert(spaces@.take(spaces@.len() as int) =~= spaces@);
        }
        copy
    }

    /// An owned copy of the node named by `space`.
    pub(crate) fn node_snapshot(&self, space: Space<O::Type, O::Extractor>) -> (snapshot: NodeSnapshot<
        O::Type,
        O::Extractor,
        TI::Key,
        EI::Key,
    >)
        requires
            self.wf(),
            self.ctx().valid_space(space),
        ensures
            self.snapshot_ok(space, snapshot),
    {
        proof {
            if space@ != 0 {
                assert(self.ctx().node_ok(self.ctx().nodes()[space@ - 1], space@ - 1));
            }
        }
        match self.context.node_ref(space) {
            None => NodeSnapshot::Empty,
            Some(SpaceNode::Type { value_type, introduced_by_decomposition }) => NodeSnapshot::Type {
                value_type: self.clone_type_key(value_type),
                introduced_by_decomposition: *introduced_by_decomposition,
            },
            Some(SpaceNode::Product { value_type, extractor, parameters }) => NodeSnapshot::Product {
                value_type: self.clone_type_key(value_type),
                extractor: self.clone_extractor_key(extractor),
                parameters: Self::copy_spaces(parameters),
            },
            Some(SpaceNode::Union(members)) => NodeSnapshot::Union(Self::copy_spaces(members)),
        }
    }

    /// `snapshot` is a faithful copy of the node named by `space`.
    pub(crate) open spec fn snapshot_ok(
        self,
        space: Space<O::Type, O::Extractor>,
        snapshot: NodeSnapshot<O::Type, O::Extractor, TI::Key, EI::Key>,
    ) -> bool {
        match snapshot {
            NodeSnapshot::Empty => space@ == 0,
            NodeSnapshot::Type { value_type, introduced_by_decomposition } => {
                &&& space@ != 0
                &&& self.ctx().node(space) matches SpaceNode::Type { value_type: k, introduced_by_decomposition: d }
                    && d == introduced_by_decomposition && cloned::<TI::Key>(k, value_type)
                &&& self.ctx().type_interner().valid_key(value_type)
            },
            NodeSnapshot::Product { value_type, extractor, parameters } => {
                &&& space@ != 0
                &&& self.ctx().node(space) matches SpaceNode::Product { value_type: k, extractor: x, .. }
                    && cloned::<TI::Key>(k, value_type) && cloned::<EI::Key>(x, extractor)
                &&& parameters@ == product_parameters(self.ctx().node(space))
                &&& self.ctx().type_interner().valid_key(value_type)
                &&& self.ctx().extractor_interner().valid_key(extractor)
                &&& forall|i: int| 0 <= i < parameters@.len() ==> #[trigger] parameters@[i]@ < space@
            },
            NodeSnapshot::Union(members) => {
                &&& space@ != 0
                &&& self.ctx().node(space) is Union
                &&& members@ == union_members(self.ctx().node(space))
                &&& members@.len() >= 2
                &&& self.ctx().member_list_ok(members@)
                &&& forall|i: int| 0 <= i < members@.len() ==> #[trigger] members@[i]@ < space@
            },
        }
    }

    // ----- calls into the operations, on interned keys -----
    fn is_subtype_key(&self, left: &TI::Key, right: &TI::Key) -> (subtype: bool)
        requires
            self.ctx().type_interner().valid_key(*left),
            self.ctx().type_interner().valid_key(*right),
        ensures
            call_ensures(
                O::is_subtype,
                (&self.ops(), &self.ctx().type_interner().item(*left), &self.ctx().type_interner().item(*right)),
                subtype,
            ),
    {
        let left = self.context.type_by_key(left);
        let right = self.context.type_by_key(right);
        self.operations.is_subtype(left, right)
    }

    fn extractors_are_equivalent_key(&self, left: &EI::Key, right: &EI::Key) -> (equivalent: bool)
        requires
            self.ctx().extractor_interner().valid_key(*left),
            self.ctx().extractor_interner().valid_key(*right),
        ensures
            call_ensures(O::extractors_are_equivalent, (&self.ops(), &self.ctx().extractor_interner().item(*left), &self.ctx().extractor_interner().item(*right)), equivalent),
    {
        let left = self.context.extractor_by_key(left);
        let right = self.context.extractor_by_key(right);
        self.operations.extractors_are_equivalent(left, right)
    }

    fn decompose_type_key(&self, key: &TI::Key) -> (decomposition: Decomposition<O::Type>)
        requires
            self.ctx().type_interner().valid_key(*key),
        ensures
            call_ensures(O::decompose_type, (&self.ops(), &self.ctx().type_interner().item(*key)), decomposition),
    {
        let value_type = self.context.type_by_key(key);
        self.operations.decompose_type(value_type)
    }

    fn intersect_atomic_type_keys(&self, left: &TI::Key, right: &TI::Key) -> (intersection: AtomicIntersection<
        O::Type,
    >)
        requires
            self.ctx().type_interner().valid_key(*left),
            self.ctx().type_interner().valid_key(*right),
        ensures
            call_ensures(O::intersect_atomic_types, (&self.ops(), &self.ctx().type_interner().item(*left), &self.ctx().type_interner().item(*right)), intersection),
    {
        let left = self.context.type_by_key(left);
        let right = self.context.type_by_key(right);
        self.operations.intersect_atomic_types(left, right)
    }

    fn extractor_covers_type_key(&self, extractor: &EI::Key, scrutinee_type: &TI::Key, arity: usize) -> (covers: bool)
        requires
            self.ctx().extractor_interner().valid_key(*extractor),
            self.ctx().type_interner().valid_key(*scrutinee_type),
        ensures
            call_ensures(
                O::extractor_covers_type,
                (&self.ops(), &self.ctx().extractor_interner().item(*extractor), &self.ctx().type_interner().item(*scrutinee_type), arity),
                covers,
            ),
    {
        let extractor = self.context.extractor_by_key(extractor);
        let scrutinee_type = self.context.type_by_key(scrutinee_type);
        self.operations.extractor_covers_type(extractor, scrutinee_type, arity)
    }

    fn extractor_parameter_types_key(
        &self,
        extractor: &EI::Key,
        scrutinee_type: &TI::Key,
        arity: usize,
    ) -> (parameter_types: Vec<O::Type>)
        requires
            self.ctx().extractor_interner().valid_key(*extractor),
            self.ctx().type_interner().valid_key(*scrutinee_type),
        ensures
            call_ensures(
                O::extractor_parameter_types,
                (&self.ops(), &self.ctx().extractor_interner().item(*extractor), &self.ctx().type_interner().item(*scrutinee_type), arity),
                parameter_types,
            ),
    {
        let extractor = self.context.extractor_by_key(extractor);
        let scrutinee_type = self.context.type_by_key(scrutinee_type);
        self.operations.extractor_parameter_types(extractor, scrutinee_type, arity)
    }

    fn allow_right_hand_decomposition_key(&self, key: &TI::Key) -> (allowed: bool)
        requires
            self.ctx().type_interner().valid_key(*key),
        ensures
            call_ensures(O::allow_right_hand_decomposition, (&self.ops(), &self.ctx().type_interner().item(*key)), allowed),
    {
        let value_type = self.context.type_by_key(key);
        self.operations.allow_right_hand_decomposition(value_type)
    }

    /// Two products have the same shape: the same arity and equivalent extractors.
    fn same_product_shape(
        &self,
        left_extractor: &EI::Key,
        right_extractor: &EI::Key,
        left_arity: usize,
        right_arity: usize,
    ) -> (same: bool)
        requires
            self.ctx().extractor_interner().valid_key(*left_extractor),
            self.ctx().extractor_interner().valid_key(*right_extractor),
        ensures
            same ==> left_arity == right_arity,
            same ==> call_ensures(O::extractors_are_equivalent, (&self.ops(), &self.ctx().extractor_interner().item(*left_extractor), &self.ctx().extractor_interner().item(*right_extractor)), true),
            !same ==> left_arity != right_arity || call_ensures(O::extractors_are_equivalent, (&self.ops(), &self.ctx().extractor_interner().item(*left_extractor), &self.ctx().extractor_interner().item(*right_extractor)), false),
    {
        left_arity == right_arity && self.extractors_are_equivalent_key(left_extractor, right_extractor)
    }

    // ----- building spaces in the context -----
    fn make_atomic_type_space(&mut self, value_type: O::Type) -> (space: Space<O::Type, O::Extractor>)
        requires
            old(self).wf(),
        ensures
            final(self).evolves(*old(self)),
            final(self).steps() == old(self).steps(),
            final(self).ctx().valid_space(space),
            space@ != 0,
            !final(self).ctx().is_union(space),
    {
        let ghost prev = *self;
        let space = self.context.atomic_type(value_type);
        proof {
            self.lemma_caches_frame(prev);
        }
        space
    }

    pub(crate) fn make_type_space_from_key(&mut self, value_type_key: TI::Key, introduced_by_decomposition: bool) -> (space:
        Space<O::Type, O::Extractor>)
        requires
            old(self).wf(),
            old(self).ctx().type_interner().valid_key(value_type_key),
        ensures
            final(self).evolves(*old(self)),
            final(self).steps() == old(self).steps(),
            final(self).ctx().valid_space(space),
            space@ != 0,
            final(self).ctx().node(space) is Type,
            final(self).ctx().node(space) matches SpaceNode::Type { value_type: key, introduced_by_decomposition: d }
                && d == introduced_by_decomposition && (key == value_type_key || (TI::Key::obeys_eq_spec() ==> key.eq_spec(
                &value_type_key,
            ))),
    {
        let ghost prev = *self;
        let space = self.context.intern_type_key(value_type_key, introduced_by_decomposition);
        proof {
            self.lemma_caches_frame(prev);
        }
        space
    }

    fn make_product_space_from_keys(
        &mut self,
        value_type_key: TI::Key,
        extractor: EI::Key,
        parameters: Vec<Space<O::Type, O::Extractor>>,
    ) -> (space: Space<O::Type, O::Extractor>)
        requires
            old(self).wf(),
            old(self).ctx().type_interner().valid_key(value_type_key),
            old(self).ctx().extractor_interner().valid_key(extractor),
            forall|i: int| 0 <= i < parameters@.len() ==> old(self).ctx().valid_space(#[trigger] parameters@[i]),
        ensures
            final(self).evolves(*old(self)),
            final(self).steps() == old(self).steps(),
            final(self).ctx().valid_space(space),
            space@ != 0,
            final(self).ctx().node(space) is Product,
            product_parameters(final(self).ctx().node(space)) == parameters@,
            final(self).caches == old(self).caches,
            final(self).product_keys_are(space, value_type_key, extractor),
    {
        let ghost prev = *self;
        let space = self.context.intern_product_keys(value_type_key, extractor, parameters);
        proof {
            self.lemma_caches_frame(prev);
        }
        space
    }

    fn intern_type_value(&mut self, value_type: O::Type) -> (key: TI::Key)
        requires
            old(self).wf(),
        ensures
            final(self).evolves(*old(self)),
            final(self).steps() == old(self).steps(),
            final(self).ctx().type_interner().valid_key(key),
            final(self).caches == old(self).caches,
    {
        let ghost prev = *self;
        let key = self.context.intern_type_value(value_type);
        proof {
            self.lemma_caches_frame(prev);
        }
        key
    }

    fn build_union(&mut self, spaces: Vec<Space<O::Type, O::Extractor>>) -> (space: Space<O::Type, O::Extractor>)
        requires
            old(self).wf(),
            forall|i: int| 0 <= i < spaces@.len() ==> old(self).ctx().valid_space(#[trigger] spaces@[i]),
        ensures
            final(self).evolves(*old(self)),
            final(self).steps() == old(self).steps(),
            final(self).ctx().is_union_of(space, old(self).ctx().union_member_list(spaces@)),
    {
        let ghost prev = *self;
        let space = self.context.union(spaces);
        proof {
            self.lemma_caches_frame(prev);
        }
        space
    }

    pub(crate) fn build_union2(&mut self, left: Space<O::Type, O::Extractor>, right: Space<O::Type, O::Extractor>) -> (space:
        Space<O::Type, O::Extractor>)
        requires
            old(self).wf(),
            old(self).ctx().valid_space(left),
            old(self).ctx().valid_space(right),
        ensures
            final(self).evolves(*old(self)),
            final(self).steps() == old(self).steps(),
            final(self).ctx().is_union_of(space, old(self).ctx().union_member_list(seq![left, right])),
    {
        let ghost prev = *self;
        let space = self.context.union_pair(left, right);
        proof {
            self.lemma_caches_frame(prev);
        }
        space
    }

    fn build_union_from_members(&mut self, members: Vec<Space<O::Type, O::Extractor>>) -> (space: Space<
        O::Type,
        O::Extractor,
    >)
        requires
            old(self).wf(),
            old(self).ctx().member_list_ok(members@),
        ensures
            final(self).evolves(*old(self)),
            final(self).steps() == old(self).steps(),
            final(self).ctx().is_union_of(space, members@),
            final(self).caches == old(self).caches,
    {
        let ghost prev = *self;
        let space = self.context.union_from_members(members);
        proof {
            self.lemma_caches_frame(prev);
        }
        space
    }

    // ----- decompositions -----
    fn find_decomposition(&self, key: &TI::Key) -> (found: Option<usize>)
        ensures
            found matches Some(i) ==> i < self.caches.decompositions@.len(),
            TI::Key::obeys_eq_spec() ==> match found {
                Some(i) => self.caches.decompositions@[i as int].0.eq_spec(key) && forall|j: int|
                    0 <= j < i ==> !(#[trigger] self.caches.decompositions@[j]).0.eq_spec(key),
                None => forall|j: int|
                    0 <= j < self.caches.decompositions@.len() ==> !(#[trigger] self.caches.decompositions@[j]).0.eq_spec(key),
            },
    {
        let mut i: usize = 0;
        while i < self.caches.decompositions.len()
            invariant
                i <= self.caches.decompositions@.len(),
                TI::Key::obeys_eq_spec() ==> forall|j: int|
                    0 <= j < i ==> !(#[trigger] self.caches.decompositions@[j]).0.eq_spec(key),
            decreases self.caches.decompositions@.len() - i,
        {
            if self.caches.decompositions[i].0 == *key {
                return Some(i);
            }
            i = i + 1;
        }
        None
    }

    fn clone_decomposition(&self, decomposition: &Decomposition<TI::Key>) -> (copy: Decomposition<TI::Key>)
        requires
            decomposition matches Decomposition::Parts(parts) ==> forall|j: int|
                0 <= j < parts@.len() ==> self.ctx().type_interner().valid_key(#[trigger] parts@[j]),
        ensures
            self.decomposition_ok(copy),
            same_shape(copy, *decomposition),
    {
        match decomposition {
            Decomposition::NotDecomposable => Decomposition::NotDecomposable,
            Decomposition::Empty => Decomposition::Empty,
            Decomposition::Parts(parts) => {
                let mut copy: Vec<TI::Key> = Vec::new();
                let mut i: usize = 0;
                while i < parts.len()
                    invariant
                        i <= parts@.len(),
                        copy@.len() == i,
                        forall|j: int| 0 <= j < parts@.len() ==> self.ctx().type_interner().valid_key(#[trigger] parts@[j]),
                        forall|j: int| 0 <= j < copy@.len() ==> self.ctx().type_interner().valid_key(#[trigger] copy@[j]),
                    decreases parts@.len() - i,
                {
                    copy.push(self.clone_type_key(&parts[i]));
                    i = i + 1;
                }
                Decomposition::Parts(copy)
            },
        }
    }

    /// Every part of `decomposition` is a valid type key.
    pub(crate) open spec fn decomposition_ok(self, decomposition: Decomposition<TI::Key>) -> bool {
        decomposition matches Decomposition::Parts(parts) ==> forall|j: int|
            0 <= j < parts@.len() ==> self.ctx().type_interner().valid_key(#[trigger] parts@[j])
    }

    /// The decomposition of a type, with its parts interned; memoized.
    pub(crate) fn decomposition_for_type_key(&mut self, value_type_key: &TI::Key) -> (decomposition: Decomposition<
        TI::Key,
    >)
        requires
            old(self).wf(),
            old(self).ctx().type_interner().valid_key(*value_type_key),
        ensures
            final(self).evolves(*old(self)),
            final(self).steps() == old(self).steps(),
            final(self).decomposition_ok(decomposition),
            TI::Key::obeys_eq_spec() ==> final(self).decomposes_as(*value_type_key, decomposition),
            final(self).caches.memo == old(self).caches.memo,
    {
        if let Some(index) = self.find_decomposition(value_type_key) {
            proof {
                let entry = self.caches.decompositions@[index as int];
                assert(self.ctx().type_interner().valid_key(entry.0));
                assert(self.answered_decomposition(entry.0, entry.1));
            }
            let copy = self.clone_decomposition(&self.caches.decompositions[index].1);
            proof {
                let entry = self.caches.decompositions@[index as int];
                let (asked, answer) = choose|asked: TI::Key, answer: Decomposition<O::Type>|
                    (asked == entry.0 || cloned::<TI::Key>(asked, entry.0)) && self.ctx().type_interner().valid_key(asked)
                        && call_ensures(O::decompose_type, (&self.ops(), &self.ctx().type_interner().item(asked)), answer)
                        && same_shape(entry.1, answer);
                assert(same_shape(copy, answer));
                assert(self.answered_decomposition(entry.0, copy));
            }
            return copy;
        }
        let decomposition = self.decompose_type_key(value_type_key);
        let ghost answer = decomposition;
        let ghost start = *self;
        let interned = match decomposition {
            Decomposition::NotDecomposable => Decomposition::NotDecomposable,
            Decomposition::Empty => Decomposition::Empty,
            Decomposition::Parts(parts) => {
                let ghost total = parts@.len();
                let mut parts = parts;
                let mut keys: Vec<TI::Key> = Vec::new();
                while parts.len() > 0
                    invariant
                        self.evolves(start),
                        self.steps() == start.steps(),
                        keys@.len() + parts@.len() == total,
                        self.caches.memo == start.caches.memo,
                        forall|j: int| 0 <= j < keys@.len() ==> self.ctx().type_interner().valid_key(#[trigger] keys@[j]),
                    decreases parts@.len(),
                {
                    let part = parts.remove(0);
                    let ghost before = *self;
                    let key = self.intern_type_value(part);
                    proof {
                        Self::lemma_evolves_trans(*self, before, start);
                        assert forall|j: int| 0 <= j < keys@.len() implies self.ctx().type_interner().valid_key(#[trigger] keys@[j]) by {
                            assert(before.ctx().type_interner().valid_key(keys@[j]));
                        }
                    }
                    keys.push(key);
                }
                Decomposition::Parts(keys)
            },
        };
        let key = self.clone_type_key(value_type_key);
        let copy = self.clone_decomposition(&interned);
        let ghost before_insert = *self;
        self.caches.decompositions.push((key, interned));
        proof {
            assert forall|i: int| 0 <= i < self.caches.decompositions@.len() implies {
                let entry = #[trigger] self.caches.decompositions@[i];
                &&& self.ctx().type_interner().valid_key(entry.0)
                &&& entry.1 matches Decomposition::Parts(parts) ==> forall|j: int|
                    0 <= j < parts@.len() ==> self.ctx().type_interner().valid_key(#[trigger] parts@[j])
            } by {
                if i < before_insert.caches.decompositions@.len() {
                    assert(before_insert.caches.decompositions@[i] == self.caches.decompositions@[i]);
                }
            }
            assert forall|i: int| 0 <= i < self.caches.decomposed_unions@.len() implies {
                let entry = #[trigger] self.caches.decomposed_unions@[i];
                &&& self.ctx().type_interner().valid_key(entry.0)
                &&& self.ctx().valid_space(entry.1)
            } by {
                assert(before_insert.caches.decomposed_unions@[i] == self.caches.decomposed_unions@[i]);
            }
            self.lemma_decomposed_unions_kept(before_insert);
            self.lemma_memo_frame(before_insert);
            assert(same_shape(interned, answer));
            assert(cloned::<TI::Key>(*value_type_key, key));
            assert(self.ctx().type_interner().item(*value_type_key) == start.ctx().type_interner().item(*value_type_key));
            assert forall|i: int| 0 <= i < self.caches.decompositions@.len() implies self.answered_decomposition(
                (#[trigger] self.caches.decompositions@[i]).0,
                self.caches.decompositions@[i].1,
            ) by {
                let entry = self.caches.decompositions@[i];
                if i < before_insert.caches.decompositions@.len() {
                    assert(before_insert.caches.decompositions@[i] == entry);
                    assert(before_insert.answered_decomposition(entry.0, entry.1));
                    let (asked, reply) = choose|asked: TI::Key, reply: Decomposition<O::Type>|
                        (asked == entry.0 || cloned::<TI::Key>(asked, entry.0)) && before_insert.ctx().type_interner().valid_key(asked)
                            && call_ensures(O::decompose_type, (&before_insert.ops(), &before_insert.ctx().type_interner().item(asked)), reply)
                            && same_shape(entry.1, reply);
                    assert(call_ensures(O::decompose_type, (&self.ops(), &self.ctx().type_interner().item(asked)), reply));
                } else {
                    assert(entry == (key, interned));
                    assert(call_ensures(O::decompose_type, (&self.ops(), &self.ctx().type_interner().item(*value_type_key)), answer));
                }
            }
            assert(call_ensures(O::decompose_type, (&self.ops(), &self.ctx().type_interner().item(*value_type_key)), answer));
            assert(same_shape(copy, answer));
            assert(self.answered_decomposition(*value_type_key, copy));
        }
        copy
    }


    fn find_decomposed_union(&self, key: &TI::Key) -> (found: Option<usize>)
        ensures
            found matches Some(i) ==> i < self.caches.decomposed_unions@.len(),
            TI::Key::obeys_eq_spec() ==> match found {
                Some(i) => self.caches.decomposed_unions@[i as int].0.eq_spec(key) && forall|j: int|
                    0 <= j < i ==> !(#[trigger] self.caches.decomposed_unions@[j]).0.eq_spec(key),
                None => forall|j: int|
                    0 <= j < self.caches.decomposed_unions@.len() ==> !(#[trigger] self.caches.decomposed_unions@[j]).0.eq_spec(key),
            },
    {
        let mut i: usize = 0;
        while i < self.caches.decomposed_unions.len()
            invariant
                i <= self.caches.decomposed_unions@.len(),
                TI::Key::obeys_eq_spec() ==> forall|j: int|
                    0 <= j < i ==> !(#[trigger] self.caches.decomposed_unions@[j]).0.eq_spec(key),
            decreases self.caches.decomposed_unions@.len() - i,
        {
            if self.caches.decomposed_unions[i].0 == *key {
                return Some(i);
            }
            i = i + 1;
        }
        None
    }

    /// The union of the type spaces of a type's decomposition parts; memoized.
    fn decomposed_type_key_union(&mut self, value_type_key: &TI::Key) -> (space: Space<O::Type, O::Extractor>)
        requires
            old(self).wf(),
            old(self).ctx().type_interner().valid_key(*value_type_key),
        ensures
            final(self).evolves(*old(self)),
            final(self).steps() == old(self).steps(),
            final(self).ctx().valid_space(space),
            TI::Key::obeys_eq_spec() ==> final(self).decomposed_near(*value_type_key, space),
    {
        if let Some(index) = self.find_decomposed_union(value_type_key) {
            proof {
                let entry = self.caches.decomposed_unions@[index as int];
                assert(self.ctx().valid_space(entry.1));
                if TI::Key::obeys_eq_spec() {
                    assert(self.union_entry_ok(entry));
                    let source = choose|source: TI::Key| cloned::<TI::Key>(source, entry.0) && self.decomposed_via(source, entry.1);
                    assert(cloned::<TI::Key>(source, entry.0) && entry.0.eq_spec(value_type_key));
                    assert(self.decomposed_near(*value_type_key, entry.1));
                }
            }
            return self.caches.decomposed_unions[index].1;
        }
        let ghost start = *self;
        let decomposition = self.decomposition_for_type_key(value_type_key);
        let ghost asked = decomposition;
        let ghost s_asked = *self;
        proof {
            s_asked.lemma_evolves_refl();
        }
        let decomposed_union = match decomposition {
            Decomposition::NotDecomposable | Decomposition::Empty => self.context.empty(),
            Decomposition::Parts(parts) => {
                let ghost all_parts = parts@;
                let mut parts = parts;
                let mut spaces: Vec<Space<O::Type, O::Extractor>> = Vec::new();
                while parts.len() > 0
                    invariant
                        self.evolves(start),
                        self.evolves(s_asked),
                        self.steps() == start.steps(),
                        forall|j: int| 0 <= j < parts@.len() ==> self.ctx().type_interner().valid_key(#[trigger] parts@[j]),
                        forall|j: int| 0 <= j < spaces@.len() ==> self.ctx().valid_space(#[trigger] spaces@[j]),
                        spaces@.len() + parts@.len() == all_parts.len(),
                        parts@ == all_parts.subrange(spaces@.len() as int, all_parts.len() as int),
                        TI::Key::obeys_eq_spec() ==> forall|j: int|
                            0 <= j < spaces@.len() ==> #[trigger] self.is_part_space(spaces@[j], all_parts[j]),
                    decreases parts@.len(),
                {
                    let part = parts.remove(0);
                    let ghost part_key = part;
                    let ghost before = *self;
                    let ghost done = spaces@;
                    let space = self.make_type_space_from_key(part, true);
                    proof {
                        Self::lemma_evolves_trans(*self, before, start);
                        Self::lemma_evolves_trans(*self, before, s_asked);
                        assert forall|j: int| 0 <= j < parts@.len() implies self.ctx().type_interner().valid_key(#[trigger] parts@[j]) by {
                            assert(before.ctx().type_interner().valid_key(parts@[j]));
                        }
                    }
                    spaces.push(space);
                    proof {
                        assert(all_parts[done.len() as int] == part_key);
                        if TI::Key::obeys_eq_spec() {
                            assert forall|j: int| 0 <= j < spaces@.len() implies #[trigger] self.is_part_space(spaces@[j], all_parts[j]) by {
                                if j < done.len() {
                                    assert(spaces@[j] == done[j]);
                                    assert(before.is_part_space(done[j], all_parts[j]));
                                    self.lemma_part_space_kept(before, done[j], all_parts[j]);
                                }
                            }
                        }
                        assert(parts@ =~= all_parts.subrange(spaces@.len() as int, all_parts.len() as int));
                    }
                }
                let ghost before = *self;
                let ghost members = spaces@;
                let space = self.build_union(spaces);
                proof {
                    Self::lemma_evolves_trans(*self, before, start);
                    Self::lemma_evolves_trans(*self, before, s_asked);
                    if TI::Key::obeys_eq_spec() {
                        assert forall|j: int| 0 <= j < members.len() implies #[trigger] self.is_part_space(members[j], all_parts[j]) by {
                            self.lemma_part_space_kept(before, members[j], all_parts[j]);
                        }
                        self.ctx().lemma_union_member_list_extends(before.ctx(), members);
                        self.lemma_decomposes_as_extends(s_asked, *value_type_key, asked);
                        assert(self.decomposed_via(*value_type_key, space));
                    }
                }
                space
            },
        };
        proof {
            if TI::Key::obeys_eq_spec() && !(asked is Parts) {
                assert(self.decomposes_as(*value_type_key, asked));
                assert(self.decomposed_via(*value_type_key, decomposed_union));
            }
        }
        let key = self.clone_type_key(value_type_key);
        let ghost before_insert = *self;
        self.caches.decomposed_unions.push((key, decomposed_union));
        proof {
            if TI::Key::obeys_eq_spec() {
                self.lemma_decomposed_via_kept(before_insert, *value_type_key, decomposed_union);
                assert(self.caches.decomposed_unions@.last() == (key, decomposed_union));
                assert(cloned::<TI::Key>(*value_type_key, self.caches.decomposed_unions@.last().0));
                assert(self.decomposed_via(*value_type_key, self.caches.decomposed_unions@.last().1));
                assert(self.union_entry_ok(self.caches.decomposed_unions@.last()));
            }
            self.lemma_caches_push_union(before_insert);
            if TI::Key::obeys_eq_spec() {
                assert(self.decomposed_near(*value_type_key, decomposed_union));
            }
        }
        decomposed_union
    }

    proof fn lemma_caches_push_union(self, prev: Self)
        requires
            prev.caches_ok(),
            self.ctx() == prev.ctx(),
            self.steps() == prev.steps(),
            self.caches.decompositions == prev.caches.decompositions,
            self.ops() == prev.ops(),
            self.caches.memo == prev.caches.memo,
            self.caches.decomposed_unions@.len() == prev.caches.decomposed_unions@.len() + 1,
            forall|i: int| 0 <= i < prev.caches.decomposed_unions@.len() ==> #[trigger] self.caches.decomposed_unions@[i] == prev.caches.decomposed_unions@[i],
            self.ctx().type_interner().valid_key(self.caches.decomposed_unions@.last().0),
            self.ctx().valid_space(self.caches.decomposed_unions@.last().1),
            TI::Key::obeys_eq_spec() ==> self.union_entry_ok(self.caches.decomposed_unions@.last()),
        ensures
            self.caches_ok(),
    {
        if TI::Key::obeys_eq_spec() {
            assert forall|i: int| 0 <= i < self.caches.decomposed_unions@.len() implies self.union_entry_ok(
                #[trigger] self.caches.decomposed_unions@[i],
            ) by {
                if i < prev.caches.decomposed_unions@.len() {
                    let entry = prev.caches.decomposed_unions@[i];
                    assert(self.caches.decomposed_unions@[i] == entry);
                    assert(prev.union_entry_ok(entry));
                    let source = choose|source: TI::Key| cloned::<TI::Key>(source, entry.0) && prev.decomposed_via(source, entry.1);
                    self.lemma_decomposed_via_kept(prev, source, entry.1);
                } else {
                    assert(self.caches.decomposed_unions@[i] == self.caches.decomposed_unions@.last());
                }
            }
        }
        assert forall|i: int| 0 <= i < self.caches.decomposed_unions@.len() implies {
            let entry = #[trigger] self.caches.decomposed_unions@[i];
            &&& self.ctx().type_interner().valid_key(entry.0)
            &&& self.ctx().valid_space(entry.1)
        } by {
            if i < prev.caches.decomposed_unions@.len() {
                assert(prev.caches.decomposed_unions@[i] == self.caches.decomposed_unions@[i]);
            }
        }
        assert forall|i: int| 0 <= i < self.caches.decompositions@.len() implies {
            let entry = #[trigger] self.caches.decompositions@[i];
            &&& self.ctx().type_interner().valid_key(entry.0)
            &&& entry.1 matches Decomposition::Parts(parts) ==> forall|j: int|
                0 <= j < parts@.len() ==> self.ctx().type_interner().valid_key(#[trigger] parts@[j])
        } by {
            assert(prev.caches.decompositions@[i] == self.caches.decompositions@[i]);
        }
        self.lemma_memo_frame(prev);
    }

    /// The caches hold what they held; only the memoized space results may
    /// have changed.
    proof fn lemma_memo_changed(self, prev: Self)
        requires
            prev.caches_ok(),
            self.ctx() == prev.ctx(),
            self.caches.decompositions == prev.caches.decompositions,
            self.ops() == prev.ops(),
            self.caches.decomposed_unions == prev.caches.decomposed_unions,
            self.memo_bounds(),
            self.steps() <= prev.steps(),
            self.keeps_flattenings(prev),
            self.caches.memo.simplified_spaces == prev.caches.memo.simplified_spaces || self.simplifications_ok(),
            self.caches.memo.subspace_results == prev.caches.memo.subspace_results && (self.caches.memo.simplified_spaces
                == prev.caches.memo.simplified_spaces || self.keeps_simplifications(prev)) && (self.caches.memo.subtraction_results
                == prev.caches.memo.subtraction_results || self.keeps_subtractions(prev)) || self.subspaces_ok(),
            self.caches.memo.subtraction_results == prev.caches.memo.subtraction_results && (self.caches.memo.simplified_spaces
                == prev.caches.memo.simplified_spaces || self.keeps_simplifications(prev)) && (self.caches.memo.subspace_results
                == prev.caches.memo.subspace_results || self.keeps_subspaces(prev)) || self.subtractions_ok(),
            self.caches.memo.intersection_results == prev.caches.memo.intersection_results && (self.caches.memo.simplified_spaces
                == prev.caches.memo.simplified_spaces || self.keeps_simplifications(prev)) || self.intersections_ok(),
        ensures
            self.caches_ok(),
    {
        self.lemma_decomposed_unions_kept(prev);
        if self.caches.memo.simplified_spaces == prev.caches.memo.simplified_spaces {
            self.lemma_simplifications_frame(prev);
            assert(self.keeps_simplifications(prev));
        }
        if self.caches.memo.subspace_results == prev.caches.memo.subspace_results {
            assert(self.keeps_subspaces(prev));
        }
        if self.caches.memo.subtraction_results == prev.caches.memo.subtraction_results {
            assert(self.keeps_subtractions(prev));
        }
        if !self.subspaces_ok() {
            self.lemma_subspaces_frame(prev);
        }
        if !self.subtractions_ok() {
            self.lemma_subtractions_frame(prev);
        }
        if !self.intersections_ok() {
            self.lemma_intersections_frame(prev);
        }
    }

    /// Simplifies a space by removing impossible branches and collapsing unions.
    pub fn simplify(&mut self, space: Space<O::Type, O::Extractor>) -> (simplified: Space<O::Type, O::Extractor>)
        requires
            old(self).wf(),
            old(self).ctx().valid_space(space),
        ensures
            final(self).evolves(*old(self)),
            final(self).steps() == old(self).steps(),
            final(self).ctx().valid_space(simplified),
            final(self).simplifies_to(space, simplified),
            space@ == 0 ==> simplified@ == 0,
            space@ != 0 && old(self).ctx().node(space) is Type ==> simplified == space || simplified@ == 0,
            old(self).remembered_simplification(space) matches Some(id) ==> simplified@ == id,
            final(self).remembered_simplification(space) == Some(simplified@),
            forall|other: Space<O::Type, O::Extractor>|
                other@ > space@ ==> #[trigger] final(self).remembered_simplification(other) == old(self).remembered_simplification(other),
            space@ == 0 ==> forall|other: Space<O::Type, O::Extractor>|
                0 < other@ <= usize::MAX ==> #[trigger] final(self).remembered_simplification(other) == old(self).remembered_simplification(other),
        decreases space@, 1nat,
    {
        let cached = space_id_map_get(&self.caches.memo.simplified_spaces, space.raw_id());
        if let Some(id) = cached {
            let simplified = Space::from_raw_id(id);
            proof {
                assert(space_id_entries(self.caches.memo.simplified_spaces).contains_key(space@ as usize));
                self.lemma_evolves_refl();
                space.lemma_id_fits();
                space.lemma_with_id(0);
                simplified.lemma_with_id(0);
                if simplified@ == space@ {
                    Space::lemma_same_id(simplified, space);
                }
            }
            return simplified;
        }
        let simplified = self.simplify_uncached(space);
        let ghost before = *self;
        space_id_map_insert(&mut self.caches.memo.simplified_spaces, space.raw_id(), simplified.raw_id());
        proof {
            space.lemma_id_fits();
            space.lemma_with_id(0);
            simplified.lemma_with_id(0);
            let entries = space_id_entries(self.caches.memo.simplified_spaces);
            assert(before.remembered_simplification(space) == old(self).remembered_simplification(space));
            assert(!space_id_entries(before.caches.memo.simplified_spaces).contains_key(space@ as usize));
            assert(self.keeps_simplifications(before));
            assert forall|other: Space<O::Type, O::Extractor>| other@ > space@ implies #[trigger] self.remembered_simplification(other)
                == old(self).remembered_simplification(other) by {
                other.lemma_id_fits();
                assert(before.remembered_simplification(other) == old(self).remembered_simplification(other));
            }
            assert forall|k: usize| #[trigger] entries.contains_key(k) implies self.simplifies_to(
                Space::with_id(k as nat),
                Space::with_id(entries[k] as nat),
            ) by {
                let key_space = Space::<O::Type, O::Extractor>::with_id(k as nat);
                let result = Space::<O::Type, O::Extractor>::with_id(entries[k] as nat);
                key_space.lemma_with_id(k as nat);
                result.lemma_with_id(entries[k] as nat);
                if k == space@ as usize {
                    self.lemma_simplifies_to_extends(before, space, simplified);
                } else {
                    assert(space_id_entries(before.caches.memo.simplified_spaces).contains_key(k));
                    self.lemma_simplifies_to_extends(before, key_space, result);
                }
            }
            self.lemma_memo_changed(before);
        }
        simplified
    }

    fn simplify_uncached(&mut self, space: Space<O::Type, O::Extractor>) -> (simplified: Space<O::Type, O::Extractor>)
        requires
            old(self).wf(),
            old(self).ctx().valid_space(space),
        ensures
            final(self).evolves(*old(self)),
            final(self).steps() == old(self).steps(),
            final(self).ctx().valid_space(simplified),
            final(self).simplifies_to(space, simplified),
            space@ == 0 ==> simplified@ == 0,
            space@ == 0 ==> final(self).caches == old(self).caches,
            forall|other: Space<O::Type, O::Extractor>|
                other@ >= space@ ==> #[trigger] final(self).remembered_simplification(other) == old(self).remembered_simplification(other),
        decreases space@, 0nat,
    {
        proof {
            self.lemma_evolves_refl();
        }
        match self.node_snapshot(space) {
            NodeSnapshot::Empty => self.context.empty(),
            NodeSnapshot::Type { value_type, .. } => {
                let uninhabited = self.type_key_is_uninhabited(&value_type);
                proof {
                    assert(self.caches.memo == old(self).caches.memo);
                    assert forall|other: Space<O::Type, O::Extractor>| other@ >= space@ implies #[trigger] self.remembered_simplification(other)
                        == old(self).remembered_simplification(other) by {
                    }
                }
                if uninhabited {
                    self.context.empty()
                } else {
                    space
                }
            },
            NodeSnapshot::Product { value_type, extractor, parameters } => {
                let ghost node_key = old(self).ctx().node(space)->Product_value_type;
                if self.type_key_is_uninhabited(&value_type) {
                    return self.context.empty();
                }
                let ghost start = *self;
                let mut simplified_parameters: Vec<Space<O::Type, O::Extractor>> = Vec::new();
                let mut changed = false;
                let mut i: usize = 0;
                while i < parameters.len()
                    invariant
                        space@ != 0,
                        old(self).ctx().valid_space(space),
                        old(self).ctx().node(space) is Product,
                        node_key == old(self).ctx().node(space)->Product_value_type,
                        parameters@ == product_parameters(old(self).ctx().node(space)),
                        forall|j: int| 0 <= j < parameters@.len() ==> (#[trigger] parameters@[j])@ < space@,
                        self.evolves(*old(self)),
                        self.evolves(start),
                        self.steps() == old(self).steps(),
                        start.decided_uninhabited(node_key, false),
                        i <= parameters@.len(),
                        simplified_parameters@.len() == i,
                        forall|j: int| 0 <= j < parameters@.len() ==> self.ctx().valid_space(#[trigger] parameters@[j]),
                        forall|j: int| 0 <= j < simplified_parameters@.len() ==> self.ctx().valid_space(#[trigger] simplified_parameters@[j]),
                        forall|j: int|
                            0 <= j < i ==> self.remembered_simplification(#[trigger] parameters@[j]) == Some(simplified_parameters@[j]@)
                                && simplified_parameters@[j]@ != 0,
                        !changed ==> forall|j: int| 0 <= j < i ==> (#[trigger] simplified_parameters@[j])@ == parameters@[j]@,
                        changed ==> exists|j: int| 0 <= j < i && (#[trigger] simplified_parameters@[j])@ != parameters@[j]@,
                        forall|other: Space<O::Type, O::Extractor>|
                            other@ >= space@ ==> #[trigger] self.remembered_simplification(other) == old(self).remembered_simplification(other),
                        self.ctx().type_interner().valid_key(value_type),
                        self.ctx().extractor_interner().valid_key(extractor),
                    decreases parameters@.len() - i,
                {
                    let parameter = parameters[i];
                    let ghost before = *self;
                    let simplified_parameter = self.simplify(parameter);
                    proof {
                        Self::lemma_evolves_trans(*self, before, *old(self));
                        Self::lemma_evolves_trans(*self, before, start);
                        assert forall|j: int| 0 <= j < i implies self.remembered_simplification(#[trigger] parameters@[j])
                            == Some(simplified_parameters@[j]@) by {
                            self.lemma_remembered_kept(before, parameters@[j]);
                        }
                    }
                    if simplified_parameter.raw_id() != parameter.raw_id() {
                        changed = true;
                    }
                    if simplified_parameter.is_empty() {
                        let empty = self.context.empty();
                        proof {
                            self.lemma_decided_extends(start, node_key, false);
                            assert(self.remembered_simplification(parameters@[i as int]) == Some(0nat));
                            assert(self.ctx().node(space) == old(self).ctx().node(space));
                            assert(self.parameters_simplify_to(space, parameters@, empty));
                            assert(self.simplifies_to(space, empty));
                            assert forall|other: Space<O::Type, O::Extractor>| other@ >= space@ implies #[trigger] self.remembered_simplification(other)
                                == old(self).remembered_simplification(other) by {
                                assert(before.remembered_simplification(other) == old(self).remembered_simplification(other));
                            }
                        }
                        return empty;
                    }
                    let ghost previous = simplified_parameters@;
                    simplified_parameters.push(simplified_parameter);
                    proof {
                        if changed {
                            if simplified_parameter@ != parameter@ {
                                assert(simplified_parameters@[i as int] == simplified_parameter);
                            } else {
                                let j = choose|j: int| 0 <= j < i && (#[trigger] previous[j])@ != parameters@[j]@;
                                assert(simplified_parameters@[j] == previous[j]);
                            }
                        }
                    }
                    i = i + 1;
                }
                if changed {
                    let ghost before = *self;
                    let result = self.make_product_space_from_keys(value_type, extractor, simplified_parameters);
                    proof {
                        Self::lemma_evolves_trans(*self, before, *old(self));
                        Self::lemma_evolves_trans(*self, before, start);
                        self.lemma_decided_extends(start, node_key, false);
                        let j = choose|j: int| 0 <= j < parameters@.len() && (#[trigger] simplified_parameters@[j])@ != parameters@[j]@;
                        assert(self.remembered_simplification(parameters@[j]) != Some(parameters@[j]@));
                        assert(self.parameters_simplify_to(space, parameters@, result));
                    }
                    proof {
                        assert(self.caches == before.caches);
                        assert forall|other: Space<O::Type, O::Extractor>| other@ >= space@ implies #[trigger] self.remembered_simplification(other)
                            == old(self).remembered_simplification(other) by {
                            assert(before.remembered_simplification(other) == old(self).remembered_simplification(other));
                        }
                    }
                    result
                } else {
                    proof {
                        self.lemma_decided_extends(start, node_key, false);
                        assert(self.parameters_simplify_to(space, parameters@, space));
                    }
                    space
                }
            },
            NodeSnapshot::Union(members) => {
                let ghost mut simplified_list: Seq<Space<O::Type, O::Extractor>> = Seq::empty();
                let mut simplified_members: Vec<Space<O::Type, O::Extractor>> = Vec::new();
                let mut changed = false;
                let mut i: usize = 0;
                proof {
                    assert(self.ctx().union_member_list(simplified_list) =~= Seq::<Space<O::Type, O::Extractor>>::empty());
                }
                while i < members.len()
                    invariant
                        self.evolves(*old(self)),
                        self.steps() == old(self).steps(),
                        i <= members@.len(),
                        forall|j: int| 0 <= j < members@.len() ==> self.ctx().valid_space(#[trigger] members@[j]),
                        forall|j: int| 0 <= j < members@.len() ==> (#[trigger] members@[j])@ < space@,
                        self.ctx().member_list_ok(simplified_members@),
                        simplified_list.len() == i,
                        forall|j: int| 0 <= j < i ==> self.ctx().valid_space(#[trigger] simplified_list[j]),
                        forall|j: int|
                            0 <= j < i ==> self.remembered_simplification(#[trigger] members@[j]) == Some(simplified_list[j]@),
                        simplified_members@ == self.ctx().union_member_list(simplified_list),
                        forall|other: Space<O::Type, O::Extractor>|
                            other@ >= space@ ==> #[trigger] self.remembered_simplification(other) == old(self).remembered_simplification(other),
                    decreases members@.len() - i,
                {
                    let member = members[i];
                    let ghost before = *self;
                    let simplified_member = self.simplify(member);
                    proof {
                        Self::lemma_evolves_trans(*self, before, *old(self));
                        self.ctx().lemma_member_list_extends(before.ctx(), simplified_members@);
                        self.ctx().lemma_union_member_list_extends(before.ctx(), simplified_list);
                        assert forall|j: int| 0 <= j < i implies self.remembered_simplification(#[trigger] members@[j])
                            == Some(simplified_list[j]@) by {
                            self.lemma_remembered_kept(before, members@[j]);
                        }
                    }
                    if simplified_member.raw_id() != member.raw_id() {
                        changed = true;
                    }
                    let previous_len = simplified_members.len();
                    self.context.extend_union_members(&mut simplified_members, simplified_member);
                    if !(simplified_members.len() > previous_len && simplified_members.len() - previous_len == 1) {
                        changed = true;
                    }
                    proof {
                        let extended = simplified_list.push(simplified_member);
                        assert(extended.drop_last() =~= simplified_list);
                        simplified_list = extended;
                    }
                    i = i + 1;
                }
                let ghost before = *self;
                let normalized_union = self.build_union_from_members(simplified_members);
                proof {
                    Self::lemma_evolves_trans(*self, before, *old(self));
                    self.ctx().lemma_union_member_list_extends(before.ctx(), simplified_list);
                    assert(self.members_simplify_to(members@, normalized_union));
                }
                proof {
                    assert forall|other: Space<O::Type, O::Extractor>| other@ >= space@ implies #[trigger] self.remembered_simplification(other)
                        == old(self).remembered_simplification(other) by {
                        assert(before.remembered_simplification(other) == old(self).remembered_simplification(other));
                    }
                }
                if !changed && normalized_union.raw_id() == space.raw_id() {
                    proof {
                        Space::lemma_same_id(normalized_union, space);
                    }
                    space
                } else {
                    normalized_union
                }
            },
        }
    }

    /// Returns `true` when `left_space` is a subspace of `right_space`.
    pub fn is_subspace(&mut self, left_space: Space<O::Type, O::Extractor>, right_space: Space<O::Type, O::Extractor>) -> (subspace: bool)
        requires
            old(self).wf(),
            old(self).ctx().valid_space(left_space),
            old(self).ctx().valid_space(right_space),
        ensures
            final(self).evolves(*old(self)),
            left_space@ == 0 ==> subspace,
            left_space@ == right_space@ ==> subspace,
            right_space@ == 0 ==> (subspace <==> final(self).remembered_simplification(left_space) == Some(0nat)),
            final(self).remembered_simplification(left_space) == Some(0nat) ==> subspace,
            final(self).steps() > 0 ==> final(self).answered_subspace(left_space, right_space) == Some(subspace),
            final(self).steps() > 0 ==> final(self).subspace_decided(left_space, right_space, subspace),
        decreases old(self).steps(), 0nat,
    {
        if !self.tick() {
            proof {
                self.lemma_ticked(*old(self));
            }
            let ghost s1 = *self;
            let simplified_left = self.simplify(left_space);
            let ghost s2 = *self;
            let simplified_right = self.simplify(right_space);
            proof {
                Self::lemma_evolves_trans(*self, s2, *old(self));
                self.lemma_remembered_kept(s2, left_space);
                simplified_left.lemma_with_id(0);
                simplified_right.lemma_with_id(0);
                if left_space@ == right_space@ {
                    left_space.lemma_with_id(0);
                    right_space.lemma_with_id(0);
                    assert(left_space == right_space);
                }
            }
            return simplified_left.is_empty() || simplified_left.raw_id() == simplified_right.raw_id();
        }
        proof {
            self.lemma_ticked(*old(self));
        }
        let ghost s1 = *self;
        let simplified_left = self.simplify(left_space);
        let ghost s2 = *self;
        proof {
            Self::lemma_evolves_trans(s2, s1, *old(self));
        }
        let simplified_right = self.simplify(right_space);
        let ghost s3 = *self;
        proof {
            Self::lemma_evolves_trans(s3, s2, *old(self));
        }
        let subspace = self.is_subspace_simplified(simplified_left, simplified_right);
        proof {
            Self::lemma_evolves_trans(*self, s3, *old(self));
            self.lemma_remembered_kept(s3, right_space);
            self.lemma_remembered_kept(s2, left_space);
            simplified_left.lemma_with_id(0);
            simplified_right.lemma_with_id(0);
            assert(self.remembered_simplification(left_space) == Some(simplified_left@));
            assert(self.remembered_simplification(right_space) == Some(simplified_right@));
            if simplified_left@ != 0 && simplified_right@ != 0 && simplified_left@ != simplified_right@ {
                assert(self.remembered_subspace(simplified_left, simplified_right) == Some(subspace));
            }
            if right_space@ == 0 {
                if left_space@ != 0 {
                    left_space.lemma_id_fits();
                    assert(s3.remembered_simplification(left_space) == s2.remembered_simplification(left_space));
                }
                assert(self.remembered_simplification(left_space) == s3.remembered_simplification(left_space));
            }
        }
        subspace
    }

    fn is_subspace_simplified(&mut self, left_space: Space<O::Type, O::Extractor>, right_space: Space<O::Type, O::Extractor>) -> (subspace: bool)
        requires
            old(self).wf(),
            old(self).ctx().valid_space(left_space),
            old(self).ctx().valid_space(right_space),
        ensures
            final(self).evolves(*old(self)),
            left_space@ == 0 ==> subspace,
            left_space@ == right_space@ ==> subspace,
            left_space@ != 0 && left_space@ != right_space@ && right_space@ == 0 ==> !subspace,
            left_space@ == 0 || left_space@ == right_space@ || right_space@ == 0 ==> final(self).caches == old(self).caches,
            left_space@ != 0 && right_space@ != 0 && left_space@ != right_space@ ==> final(self).remembered_subspace(
                left_space,
                right_space,
            ) == Some(subspace),
            left_space@ != 0 && right_space@ != 0 && left_space@ != right_space@ ==> (old(self).remembered_subspace(
                left_space,
                right_space,
            ) matches Some(known) ==> subspace == known),
            left_space@ != 0 && right_space@ != 0 && left_space@ != right_space@ && final(self).steps() > 0
                ==> final(self).subspace_case_ok(left_space, right_space, subspace),
        decreases old(self).steps(), 3nat,
    {
        proof {
            self.lemma_ticked(*old(self));
        }
        if left_space.is_empty() {
            return true;
        }
        if left_space.raw_id() == right_space.raw_id() {
            return true;
        }
        if right_space.is_empty() {
            return false;
        }
        let key = (left_space.raw_id(), right_space.raw_id());
        proof {
            left_space.lemma_with_id(0);
            right_space.lemma_with_id(0);
        }
        if let Some(cached) = space_pair_flags_get(&self.caches.memo.subspace_results, key) {
            proof {
                assert(space_flag_entries(self.caches.memo.subspace_results).contains_key(key));
            }
            return cached;
        }
        let subspace = self.compute_subspace_relation(left_space, right_space);
        // A nested step may have answered the same question already; that
        // answer stands.
        if let Some(cached) = space_pair_flags_get(&self.caches.memo.subspace_results, key) {
            proof {
                assert(space_flag_entries(self.caches.memo.subspace_results).contains_key(key));
            }
            return cached;
        }
        let ghost before = *self;
        space_pair_flags_insert(&mut self.caches.memo.subspace_results, key, subspace);
        proof {
            let answers = space_flag_entries(self.caches.memo.subspace_results);
            let previous = space_flag_entries(before.caches.memo.subspace_results);
            assert(self.keeps_subspaces(before));
            assert(self.keeps_simplifications(before));
            assert(self.keeps_subtractions(before));
            assert forall|k: (usize, usize)| #[trigger] answers.contains_key(k) implies 0 < k.0 <= self.ctx().nodes().len()
                && 0 < k.1 <= self.ctx().nodes().len() && k.0 != k.1 by {
                if k != key {
                    assert(previous.contains_key(k));
                }
            }
            if self.steps() > 0 {
                assert forall|k: (usize, usize)| #[trigger] answers.contains_key(k) implies self.subspace_case_ok(
                    Space::with_id(k.0 as nat),
                    Space::with_id(k.1 as nat),
                    answers[k],
                ) by {
                    let l = Space::<O::Type, O::Extractor>::with_id(k.0 as nat);
                    let r = Space::<O::Type, O::Extractor>::with_id(k.1 as nat);
                    l.lemma_with_id(k.0 as nat);
                    r.lemma_with_id(k.1 as nat);
                    if k == key {
                        Space::lemma_same_id(l, left_space);
                        Space::lemma_same_id(r, right_space);
                        self.lemma_subspace_case_extends(before, left_space, right_space, subspace);
                    } else {
                        assert(previous.contains_key(k));
                        self.lemma_subspace_case_extends(before, l, r, answers[k]);
                    }
                }
            }
            assert(self.subspaces_ok());
            self.lemma_memo_changed(before);
        }
        subspace
    }

    #[verifier::loop_isolation(false)]
    fn compute_subspace_relation(&mut self, left_space: Space<O::Type, O::Extractor>, right_space: Space<O::Type, O::Extractor>) -> (subspace: bool)
        requires
            old(self).wf(),
            old(self).ctx().valid_space(left_space),
            old(self).ctx().valid_space(right_space),
        ensures
            final(self).evolves(*old(self)),
            left_space@ == 0 ==> subspace,
            left_space@ != 0 && right_space@ == 0 ==> !subspace,
            left_space@ != 0 && right_space@ != 0 ==> ((old(self).ctx().node(left_space), old(self).ctx().node(right_space)) matches (
                SpaceNode::Product { value_type: kl, .. },
                SpaceNode::Type { value_type: kr, .. },
            ) ==> exists|cl: TI::Key, cr: TI::Key|
                #![trigger cloned::<TI::Key>(kl, cl), cloned::<TI::Key>(kr, cr)]
                cloned::<TI::Key>(kl, cl) && cloned::<TI::Key>(kr, cr) && call_ensures(
                    O::is_subtype,
                    (&old(self).ops(), &old(self).ctx().type_interner().item(cl), &old(self).ctx().type_interner().item(cr)),
                    subspace,
                )),
            left_space@ != 0 && right_space@ != 0 ==> ((old(self).ctx().node(left_space), old(self).ctx().node(right_space)) matches (
                SpaceNode::Type { value_type: kl, .. },
                SpaceNode::Type { value_type: kr, .. },
            ) ==> subspace || exists|cl: TI::Key, cr: TI::Key|
                #![trigger cloned::<TI::Key>(kl, cl), cloned::<TI::Key>(kr, cr)]
                cloned::<TI::Key>(kl, cl) && cloned::<TI::Key>(kr, cr) && call_ensures(
                    O::is_subtype,
                    (&old(self).ops(), &old(self).ctx().type_interner().item(cl), &old(self).ctx().type_interner().item(cr)),
                    false,
                )),
            left_space@ != 0 && right_space@ != 0 ==> ((old(self).ctx().node(left_space), old(self).ctx().node(right_space)) matches (
                SpaceNode::Product { parameters: pl, .. },
                SpaceNode::Product { parameters: pr, .. },
            ) ==> (pl@.len() != pr@.len() ==> !subspace)),
            left_space@ != 0 && right_space@ != 0 && left_space@ != right_space@ && final(self).steps() > 0
                ==> final(self).subspace_case_ok(left_space, right_space, subspace),
        decreases old(self).steps(), 2nat,
    {
        proof {
            self.lemma_ticked(*old(self));
        }
        let left_node = self.node_snapshot(left_space);
        let right_node = self.node_snapshot(right_space);
        match (left_node, right_node) {
            (NodeSnapshot::Empty, _) => true,
            (_, NodeSnapshot::Empty) => false,
            (NodeSnapshot::Union(members), _) => {
                let mut i: usize = 0;
                while i < members.len()
                    invariant
                        self.evolves(*old(self)),
                        self.steps() <= old(self).steps(),
                        i <= members@.len(),
                        forall|j: int| 0 <= j < members@.len() ==> self.ctx().valid_space(#[trigger] members@[j]),
                        self.ctx().valid_space(right_space),
                        self.steps() > 0 ==> forall|j: int|
                            0 <= j < i ==> #[trigger] self.answered_subspace(members@[j], right_space) == Some(true),
                    decreases members@.len() - i,
                {
                    let ghost before = *self;
                    let member_is_subspace = self.is_subspace(members[i], right_space);
                    proof {
                        Self::lemma_evolves_trans(*self, before, *old(self));
                        if self.steps() > 0 {
                            assert forall|j: int| 0 <= j < i implies #[trigger] self.answered_subspace(members@[j], right_space)
                                == Some(true) by {
                                self.lemma_answered_kept(before, members@[j], right_space);
                            }
                        }
                    }
                    if !member_is_subspace {
                        proof {
                            self.lemma_node_kept(*old(self), left_space);
                            if self.steps() > 0 {
                                assert(self.answered_subspace(members@[i as int], right_space) == Some(false));
                            }
                        }
                        return false;
                    }
                    i = i + 1;
                }
                proof {
                    self.lemma_node_kept(*old(self), left_space);
                }
                true
            },
            (NodeSnapshot::Type { value_type: left_type, .. }, NodeSnapshot::Union(members)) => {
                let mut i: usize = 0;
                while i < members.len()
                    invariant
                        self.evolves(*old(self)),
                        self.steps() <= old(self).steps(),
                        i <= members@.len(),
                        forall|j: int| 0 <= j < members@.len() ==> self.ctx().valid_space(#[trigger] members@[j]),
                        self.ctx().valid_space(left_space),
                        self.ctx().valid_space(right_space),
                        self.ctx().type_interner().valid_key(left_type),
                        self.steps() > 0 ==> forall|j: int|
                            0 <= j < i ==> #[trigger] self.answered_subspace(left_space, members@[j]) == Some(false),
                    decreases members@.len() - i,
                {
                    let ghost before = *self;
                    let covered = self.is_subspace(left_space, members[i]);
                    proof {
                        Self::lemma_evolves_trans(*self, before, *old(self));
                        if self.steps() > 0 {
                            assert forall|j: int| 0 <= j < i implies #[trigger] self.answered_subspace(left_space, members@[j])
                                == Some(false) by {
                                self.lemma_answered_kept(before, left_space, members@[j]);
                            }
                        }
                    }
                    if covered {
                        proof {
                            self.lemma_node_kept(*old(self), left_space);
                            self.lemma_node_kept(*old(self), right_space);
                            if self.steps() > 0 {
                                assert(self.answered_subspace(left_space, members@[i as int]) == Some(true));
                            }
                        }
                        return true;
                    }
                    i = i + 1;
                }
                let ghost before = *self;
                let filtered = self.filtered_decomposed_type_union(&left_type, right_space);
                proof {
                    Self::lemma_evolves_trans(*self, before, *old(self));
                    if TI::Key::obeys_eq_spec() && self.steps() > 0 {
                        if let Some(filtered_left) = filtered {
                            let kl = old(self).ctx().node(left_space)->Type_value_type;
                            assert(cloned::<TI::Key>(kl, left_type));
                            assert(self.filtered_to(left_type, right_space, filtered_left));
                        }
                    }
                    if self.steps() > 0 {
                        assert forall|j: int| 0 <= j < members@.len() implies #[trigger] self.answered_subspace(left_space, members@[j])
                            == Some(false) by {
                            self.lemma_answered_kept(before, left_space, members@[j]);
                        }
                    }
                    self.lemma_node_kept(*old(self), left_space);
                    self.lemma_node_kept(*old(self), right_space);
                }
                match filtered {
                    Some(filtered_left) => filtered_left.is_empty(),
                    None => false,
                }
            },
            (_, NodeSnapshot::Union(_)) => {
                let ghost s1 = *self;
                let remainder = self.subtract(left_space, right_space);
                let ghost s2 = *self;
                proof {
                    Self::lemma_evolves_trans(s2, s1, *old(self));
                }
                let simplified = self.simplify(remainder);
                proof {
                    Self::lemma_evolves_trans(*self, s2, *old(self));
                    self.lemma_node_kept(*old(self), left_space);
                    self.lemma_node_kept(*old(self), right_space);
                    if self.steps() > 0 && left_space@ != 0 && right_space@ != 0 && left_space@ != right_space@ {
                        self.lemma_subtraction_answer_kept(s2, left_space, right_space);
                        remainder.lemma_with_id(0);
                        assert(self.simplification_is(remainder@, simplified@));
                    }
                }
                simplified.is_empty()
            },
            (NodeSnapshot::Type { value_type: left_type, .. }, NodeSnapshot::Type { value_type: right_type, .. }) => {
                let ghost kl = self.ctx().node(left_space)->Type_value_type;
                let ghost kr = self.ctx().node(right_space)->Type_value_type;
                let left_is_subtype = self.is_subtype_key(&left_type, &right_type);
                let allow_right_decomposition = self.allow_right_hand_decomposition_key(&right_type);
                proof {
                    assert(self.subtype_answered(kl, kr, left_is_subtype));
                }
                if left_is_subtype {
                    return true;
                }
                proof {
                    assert(old(self).subspace_case_ok(left_space, right_space, false));
                }
                let ghost s1 = *self;
                if self.is_decomposable(&left_type) {
                    let ghost s2 = *self;
                    proof {
                        Self::lemma_evolves_trans(s2, s1, *old(self));
                        if TI::Key::obeys_eq_spec() {
                            s2.lemma_type_decomposes_witness(kl, left_type);
                        }
                    }
                    let decomposed_union = self.decomposed_type_key_union(&left_type);
                    let ghost s3 = *self;
                    proof {
                        Self::lemma_evolves_trans(s3, s2, *old(self));
                    }
                    let result = self.is_subspace(decomposed_union, right_space);
                    proof {
                        Self::lemma_evolves_trans(*self, s3, *old(self));
                        Self::lemma_evolves_trans(*self, s3, s2);
                        self.lemma_subspace_case_extends(*old(self), left_space, right_space, false);
                        self.lemma_node_kept(*old(self), left_space);
                        self.lemma_node_kept(*old(self), right_space);
                        if TI::Key::obeys_eq_spec() {
                            self.lemma_type_decomposes_extends(s2, kl);
                            if self.steps() > 0 {
                                self.lemma_decomposed_near_kept(s3, left_type, decomposed_union);
                                assert(cloned::<TI::Key>(kl, left_type));
                                assert(self.left_decomposition_answers(kl, right_space, result));
                            }
                        }
                    }
                    return result;
                }
                let ghost s2 = *self;
                proof {
                    Self::lemma_evolves_trans(s2, s1, *old(self));
                }
                if allow_right_decomposition && self.is_decomposable(&right_type) {
                    let ghost s3 = *self;
                    proof {
                        Self::lemma_evolves_trans(s3, s2, *old(self));
                        if TI::Key::obeys_eq_spec() {
                            s3.lemma_type_decomposes_witness(kr, right_type);
                        }
                    }
                    let decomposed_union = self.decomposed_type_key_union(&right_type);
                    let ghost s4 = *self;
                    proof {
                        Self::lemma_evolves_trans(s4, s3, *old(self));
                    }
                    let result = self.is_subspace(left_space, decomposed_union);
                    proof {
                        Self::lemma_evolves_trans(*self, s4, *old(self));
                        Self::lemma_evolves_trans(*self, s4, s3);
                        self.lemma_subspace_case_extends(*old(self), left_space, right_space, false);
                        self.lemma_node_kept(*old(self), left_space);
                        self.lemma_node_kept(*old(self), right_space);
                        if TI::Key::obeys_eq_spec() {
                            self.lemma_type_decomposes_extends(s3, kr);
                            if self.steps() > 0 {
                                self.lemma_decomposed_near_kept(s4, right_type, decomposed_union);
                                assert(cloned::<TI::Key>(kr, right_type));
                                assert(self.right_decomposition_answers(left_space, kr, result));
                            }
                        }
                    }
                    return result;
                }
                proof {
                    Self::lemma_evolves_trans(*self, s2, *old(self));
                    self.lemma_subspace_case_extends(*old(self), left_space, right_space, false);
                }
                false
            },
            (NodeSnapshot::Product { value_type: left_type, .. }, NodeSnapshot::Type { value_type: right_type, .. }) => {
                let subtype = self.is_subtype_key(&left_type, &right_type);
                proof {
                    assert(self.subspace_case_ok(left_space, right_space, subtype));
                }
                subtype
            },
            (
                NodeSnapshot::Type { value_type: left_type, .. },
                NodeSnapshot::Product { value_type: right_type, extractor: right_extractor, parameters: right_parameters },
            ) => {
                let ghost kl = self.ctx().node(left_space)->Type_value_type;
                let ghost kr = self.ctx().node(right_space)->Product_value_type;
                let ghost xr = self.ctx().node(right_space)->Product_extractor;
                let ghost s1 = *self;
                let lifted = self.lifted_product_space(&left_type, &right_type, &right_extractor, right_parameters.len(), &right_type);
                let ghost s2 = *self;
                proof {
                    Self::lemma_evolves_trans(s2, s1, *old(self));
                    if lifted is Some {
                        assert(cloned::<TI::Key>(kl, left_type) && cloned::<TI::Key>(kr, right_type) && cloned::<EI::Key>(xr, right_extractor));
                        assert(s1.lifts_into(kl, kr, xr, right_parameters@.len()));
                        s2.lemma_lifts_into_extends(s1, kl, kr, xr, right_parameters@.len());
                    }
                }
                if let Some(lifted_product_space) = lifted {
                    let result = self.is_subspace(lifted_product_space, right_space);
                    proof {
                        Self::lemma_evolves_trans(*self, s2, *old(self));
                        self.lemma_node_kept(*old(self), left_space);
                        self.lemma_node_kept(*old(self), right_space);
                        self.lemma_lifts_into_extends(s2, kl, kr, xr, right_parameters@.len());
                    }
                    return result;
                }
                if self.is_decomposable(&left_type) {
                    let ghost s3 = *self;
                    proof {
                        Self::lemma_evolves_trans(s3, s2, *old(self));
                        if TI::Key::obeys_eq_spec() {
                            s3.lemma_type_decomposes_witness(kl, left_type);
                        }
                    }
                    let decomposed_union = self.decomposed_type_key_union(&left_type);
                    let ghost s4 = *self;
                    proof {
                        Self::lemma_evolves_trans(s4, s3, *old(self));
                    }
                    let result = self.is_subspace(decomposed_union, right_space);
                    proof {
                        Self::lemma_evolves_trans(*self, s4, *old(self));
                        Self::lemma_evolves_trans(*self, s4, s3);
                        self.lemma_node_kept(*old(self), left_space);
                        self.lemma_node_kept(*old(self), right_space);
                        if TI::Key::obeys_eq_spec() {
                            self.lemma_type_decomposes_extends(s3, kl);
                            if self.steps() > 0 {
                                self.lemma_decomposed_near_kept(s4, left_type, decomposed_union);
                                assert(cloned::<TI::Key>(kl, left_type));
                                assert(self.left_decomposition_answers(kl, right_space, result));
                            }
                        }
                    }
                    return result;
                }
                proof {
                    Self::lemma_evolves_trans(*self, s2, *old(self));
                    self.lemma_node_kept(*old(self), left_space);
                    self.lemma_node_kept(*old(self), right_space);
                }
                false
            },
            (
                NodeSnapshot::Product { extractor: left_extractor, parameters: left_parameters, .. },
                NodeSnapshot::Product { extractor: right_extractor, parameters: right_parameters, .. },
            ) => {
                if !self.same_product_shape(&left_extractor, &right_extractor, left_parameters.len(), right_parameters.len()) {
                    proof {
                        assert(self.subspace_case_ok(left_space, right_space, false));
                    }
                    return false;
                }
                let mut i: usize = 0;
                while i < left_parameters.len()
                    invariant
                        self.evolves(*old(self)),
                        self.steps() <= old(self).steps(),
                        i <= left_parameters@.len(),
                        left_parameters@.len() == right_parameters@.len(),
                        forall|j: int| 0 <= j < left_parameters@.len() ==> self.ctx().valid_space(#[trigger] left_parameters@[j]),
                        forall|j: int| 0 <= j < right_parameters@.len() ==> self.ctx().valid_space(#[trigger] right_parameters@[j]),
                        self.steps() > 0 ==> forall|j: int|
                            0 <= j < i ==> #[trigger] self.answered_subspace(left_parameters@[j], right_parameters@[j]) == Some(true),
                    decreases left_parameters@.len() - i,
                {
                    let ghost before = *self;
                    let parameter_is_subspace = self.is_subspace(left_parameters[i], right_parameters[i]);
                    proof {
                        Self::lemma_evolves_trans(*self, before, *old(self));
                        if self.steps() > 0 {
                            assert forall|j: int| 0 <= j < i implies #[trigger] self.answered_subspace(left_parameters@[j], right_parameters@[j])
                                == Some(true) by {
                                self.lemma_answered_kept(before, left_parameters@[j], right_parameters@[j]);
                            }
                        }
                    }
                    if !parameter_is_subspace {
                        proof {
                            self.lemma_node_kept(*old(self), left_space);
                            self.lemma_node_kept(*old(self), right_space);
                            if self.steps() > 0 {
                                assert(self.answered_subspace(left_parameters@[i as int], right_parameters@[i as int]) == Some(false));
                            }
                        }
                        return false;
                    }
                    i = i + 1;
                }
                proof {
                    self.lemma_node_kept(*old(self), left_space);
                    self.lemma_node_kept(*old(self), right_space);
                }
                true
            },
        }
    }

    /// The union of the parts of a type's decomposition that `covering_space`
    /// does not cover; `None` when the type does not decompose.
    #[verifier::spinoff_prover]
    #[verifier::rlimit(40)]
    fn filtered_decomposed_type_union(&mut self, value_type_key: &TI::Key, covering_space: Space<O::Type, O::Extractor>) -> (filtered: Option<Space<O::Type, O::Extractor>>)
        requires
            old(self).wf(),
            old(self).ctx().type_interner().valid_key(*value_type_key),
            old(self).ctx().valid_space(covering_space),
        ensures
            final(self).evolves(*old(self)),
            filtered matches Some(space) ==> final(self).ctx().valid_space(space),
            TI::Key::obeys_eq_spec() ==> exists|decomposition: Decomposition<TI::Key>|
                #[trigger] final(self).decomposes_as(*value_type_key, decomposition) && (filtered is None
                    <==> decomposition is NotDecomposable) && (decomposition is Empty ==> filtered is Some
                    && filtered->0@ == 0),
            TI::Key::obeys_eq_spec() && final(self).steps() > 0 ==> (filtered matches Some(space) ==> final(self).filtered_to(
                *value_type_key,
                covering_space,
                space,
            )),
        decreases old(self).steps(), 1nat,
    {
        proof {
            self.lemma_ticked(*old(self));
        }
        let decomposition = self.decomposition_for_type_key(value_type_key);
        let ghost asked = decomposition;
        let ghost s_asked = *self;
        let parts = match decomposition {
            Decomposition::NotDecomposable => return None,
            Decomposition::Empty => return Some(self.context.empty()),
            Decomposition::Parts(parts) => parts,
        };
        let ghost all_parts = parts@;
        let ghost original_parts = parts;
        let ghost mut done: Seq<Space<O::Type, O::Extractor>> = Seq::empty();
        let mut parts = parts;
        let mut uncovered_parts: Vec<Space<O::Type, O::Extractor>> = Vec::new();
        while parts.len() > 0
            invariant
                parts@ == all_parts.subrange(done.len() as int, all_parts.len() as int),
                done.len() <= all_parts.len(),
                TI::Key::obeys_eq_spec() && self.steps() > 0 ==> {
                    &&& forall|j: int|
                        0 <= j < done.len() ==> #[trigger] self.is_part_space(done[j], all_parts[j]) && self.answered_subspace(
                            done[j],
                            covering_space,
                        ) is Some
                    &&& uncovered_parts@ == self.uncovered_parts(done, covering_space)
                },
                self.evolves(*old(self)),
                self.evolves(s_asked),
                self.steps() <= old(self).steps(),
                self.ctx().valid_space(covering_space),
                forall|j: int| 0 <= j < parts@.len() ==> self.ctx().type_interner().valid_key(#[trigger] parts@[j]),
                forall|j: int| 0 <= j < uncovered_parts@.len() ==> self.ctx().valid_space(#[trigger] uncovered_parts@[j]),
            decreases parts@.len(),
        {
            let part = parts.remove(0);
            let ghost part_key = part;
            let ghost s1 = *self;
            let part_space = self.make_type_space_from_key(part, true);
            let ghost s2 = *self;
            proof {
                Self::lemma_evolves_trans(s2, s1, *old(self));
            }
            let covered = self.is_subspace(part_space, covering_space);
            proof {
                Self::lemma_evolves_trans(*self, s2, *old(self));
                Self::lemma_evolves_trans(s2, s1, s_asked);
                Self::lemma_evolves_trans(*self, s2, s_asked);
                assert forall|j: int| 0 <= j < parts@.len() implies self.ctx().type_interner().valid_key(#[trigger] parts@[j]) by {
                    assert(s1.ctx().type_interner().valid_key(parts@[j]));
                    assert(s2.ctx().type_interner().valid_key(parts@[j]));
                }
            }
            let ghost next = done.push(part_space);
            proof {
                if TI::Key::obeys_eq_spec() && self.steps() > 0 {
                    assert(next.drop_last() =~= done);
                    assert(all_parts[done.len() as int] == part_key);
                    assert forall|j: int| 0 <= j < done.len() implies #[trigger] s1.answered_subspace(done[j], covering_space) is Some by {
                        assert(s1.is_part_space(done[j], all_parts[j]));
                    }
                    self.lemma_uncovered_parts_kept(s1, done, covering_space);
                    assert forall|j: int| 0 <= j < next.len() implies #[trigger] self.is_part_space(next[j], all_parts[j]) && self.answered_subspace(
                        next[j],
                        covering_space,
                    ) is Some by {
                        if j < done.len() {
                            assert(next[j] == done[j]);
                            assert(s1.is_part_space(done[j], all_parts[j]));
                            self.lemma_node_kept(s1, done[j]);
                            self.lemma_answered_kept(s1, done[j], covering_space);
                        } else {
                            self.lemma_node_kept(s2, part_space);
                        }
                    }
                }
            }
            if !covered {
                uncovered_parts.push(part_space);
            }
            proof {
                done = next;
                assert(parts@ =~= all_parts.subrange(done.len() as int, all_parts.len() as int));
            }
        }
        let ghost before = *self;
        let ghost kept = uncovered_parts@;
        let union = self.build_union(uncovered_parts);
        proof {
            Self::lemma_evolves_trans(*self, before, *old(self));
            Self::lemma_evolves_trans(*self, before, s_asked);
            if TI::Key::obeys_eq_spec() {
                self.lemma_decomposes_as_extends(s_asked, *value_type_key, asked);
                if self.steps() > 0 {
                    assert(done.len() == all_parts.len());
                    assert forall|j: int| 0 <= j < done.len() implies #[trigger] before.answered_subspace(done[j], covering_space) is Some by {
                        assert(before.is_part_space(done[j], all_parts[j]));
                    }
                    self.lemma_uncovered_parts_kept(before, done, covering_space);
                    assert forall|j: int| 0 <= j < done.len() implies #[trigger] self.is_part_space(done[j], all_parts[j]) && self.answered_subspace(
                        done[j],
                        covering_space,
                    ) is Some by {
                        assert(before.is_part_space(done[j], all_parts[j]));
                        self.lemma_node_kept(before, done[j]);
                        self.lemma_answered_kept(before, done[j], covering_space);
                    }
                    self.ctx().lemma_union_member_list_extends(before.ctx(), kept);
                    assert(asked == Decomposition::Parts(original_parts));
                    assert(original_parts@ == all_parts);
                    assert(self.filtered_to(*value_type_key, covering_space, union));
                }
            }
        }
        Some(union)
    }

    /// The product space with the extractor's parameter types, when the
    /// extractor accepts every value of the scrutinee type.
    fn lifted_product_space(
        &mut self,
        scrutinee_type: &TI::Key,
        accepted_type: &TI::Key,
        extractor: &EI::Key,
        arity: usize,
        result_value_type_key: &TI::Key,
    ) -> (lifted: Option<Space<O::Type, O::Extractor>>)
        requires
            old(self).wf(),
            old(self).ctx().type_interner().valid_key(*scrutinee_type),
            old(self).ctx().type_interner().valid_key(*accepted_type),
            old(self).ctx().type_interner().valid_key(*result_value_type_key),
            old(self).ctx().extractor_interner().valid_key(*extractor),
        ensures
            final(self).evolves(*old(self)),
            final(self).steps() == old(self).steps(),
            lifted matches Some(space) ==> final(self).ctx().valid_space(space) && space@ != 0
                && final(self).ctx().node(space) is Product,
            lifted is Some ==> call_ensures(O::is_subtype, (&old(self).ops(), &old(self).ctx().type_interner().item(*scrutinee_type), &old(self).ctx().type_interner().item(*accepted_type)), true) && call_ensures(O::extractor_covers_type, (&old(self).ops(), &old(self).ctx().extractor_interner().item(*extractor), &old(self).ctx().type_interner().item(*scrutinee_type), arity), true),
            lifted is None ==> call_ensures(O::is_subtype, (&old(self).ops(), &old(self).ctx().type_interner().item(*scrutinee_type), &old(self).ctx().type_interner().item(*accepted_type)), false) || call_ensures(O::extractor_covers_type, (&old(self).ops(), &old(self).ctx().extractor_interner().item(*extractor), &old(self).ctx().type_interner().item(*scrutinee_type), arity), false),
            lifted matches Some(space) ==> exists|parameter_types: Vec<O::Type>|
                #[trigger] call_ensures(O::extractor_parameter_types, (&old(self).ops(), &old(self).ctx().extractor_interner().item(*extractor), &old(self).ctx().type_interner().item(*scrutinee_type), arity), parameter_types)
                    && product_parameters(final(self).ctx().node(space)).len() == parameter_types@.len(),
    {
        proof {
            self.lemma_ticked(*old(self));
        }
        if !self.is_subtype_key(scrutinee_type, accepted_type) {
            return None;
        }
        if !self.extractor_covers_type_key(extractor, scrutinee_type, arity) {
            return None;
        }
        let mut parameter_types = self.extractor_parameter_types_key(extractor, scrutinee_type, arity);
        let ghost answer = parameter_types;
        let mut lifted_parameters: Vec<Space<O::Type, O::Extractor>> = Vec::new();
        while parameter_types.len() > 0
            invariant
                self.evolves(*old(self)),
                self.steps() == old(self).steps(),
                lifted_parameters@.len() + parameter_types@.len() == answer@.len(),
                forall|j: int| 0 <= j < lifted_parameters@.len() ==> self.ctx().valid_space(#[trigger] lifted_parameters@[j]),
            decreases parameter_types@.len(),
        {
            let parameter_type = parameter_types.remove(0);
            let ghost before = *self;
            let space = self.make_atomic_type_space(parameter_type);
            proof {
                Self::lemma_evolves_trans(*self, before, *old(self));
            }
            lifted_parameters.push(space);
        }
        proof {
            assert(old(self).ctx().type_interner().valid_key(*result_value_type_key));
            assert(old(self).ctx().extractor_interner().valid_key(*extractor));
        }
        let value_type_key = self.clone_type_key(result_value_type_key);
        let extractor_key = self.clone_extractor_key(extractor);
        let ghost before = *self;
        let space = self.make_product_space_from_keys(value_type_key, extractor_key, lifted_parameters);
        proof {
            Self::lemma_evolves_trans(*self, before, *old(self));
        }
        Some(space)
    }


    /// Subtracts `right_space` from `left_space`.
    pub fn subtract(&mut self, left_space: Space<O::Type, O::Extractor>, right_space: Space<O::Type, O::Extractor>) -> (remainder: Space<O::Type, O::Extractor>)
        requires
            old(self).wf(),
            old(self).ctx().valid_space(left_space),
            old(self).ctx().valid_space(right_space),
        ensures
            final(self).evolves(*old(self)),
            final(self).ctx().valid_space(remainder),
            left_space@ == 0 ==> remainder@ == 0,
            right_space@ == 0 ==> remainder == left_space,
            left_space@ == right_space@ ==> remainder@ == 0,
            final(self).steps() > 0 ==> final(self).answered_subtraction(left_space, right_space) == Some(remainder@),
            final(self).steps() > 0 && left_space@ != 0 && right_space@ != 0 && left_space@ != right_space@
                ==> final(self).subtraction_case_ok(left_space, right_space, remainder),
        decreases old(self).steps(), 0nat,
    {
        proof {
            self.lemma_ticked(*old(self));
        }
        if left_space.is_empty() {
            return left_space;
        }
        if right_space.is_empty() {
            return left_space;
        }
        if left_space.raw_id() == right_space.raw_id() {
            return self.context.empty();
        }
        let key = (left_space.raw_id(), right_space.raw_id());
        proof {
            left_space.lemma_with_id(0);
            right_space.lemma_with_id(0);
        }
        if let Some(id) = space_pair_map_get(&self.caches.memo.subtraction_results, key) {
            let remembered = Space::from_raw_id(id);
            proof {
                assert(space_pair_entries(self.caches.memo.subtraction_results).contains_key(key));
                remembered.lemma_with_id(0);
            }
            return remembered;
        }
        if !self.tick() {
            return left_space;
        }
        proof {
            self.lemma_ticked(*old(self));
        }
        let ghost before = *self;
        let remainder = self.compute_subtraction(left_space, right_space);
        proof {
            Self::lemma_evolves_trans(*self, before, *old(self));
        }
        // A nested step may have computed the same remainder already; that
        // remainder stands.
        if let Some(id) = space_pair_map_get(&self.caches.memo.subtraction_results, key) {
            let remembered = Space::from_raw_id(id);
            proof {
                assert(space_pair_entries(self.caches.memo.subtraction_results).contains_key(key));
                remembered.lemma_with_id(0);
            }
            return remembered;
        }
        let ghost before_insert = *self;
        space_pair_map_insert(&mut self.caches.memo.subtraction_results, key, remainder.raw_id());
        proof {
            let remainders = space_pair_entries(self.caches.memo.subtraction_results);
            let previous = space_pair_entries(before_insert.caches.memo.subtraction_results);
            assert(self.keeps_subtractions(before_insert));
            assert(self.keeps_subspaces(before_insert));
            assert(self.keeps_simplifications(before_insert));
            remainder.lemma_with_id(0);
            assert forall|k: (usize, usize)| #[trigger] remainders.contains_key(k) implies 0 < k.0 <= self.ctx().nodes().len()
                && 0 < k.1 <= self.ctx().nodes().len() && k.0 != k.1 by {
                if k != key {
                    assert(previous.contains_key(k));
                }
            }
            if self.steps() > 0 {
                assert forall|k: (usize, usize)| #[trigger] remainders.contains_key(k) implies self.subtraction_case_ok(
                    Space::with_id(k.0 as nat),
                    Space::with_id(k.1 as nat),
                    Space::with_id(remainders[k] as nat),
                ) by {
                    let l = Space::<O::Type, O::Extractor>::with_id(k.0 as nat);
                    let r = Space::<O::Type, O::Extractor>::with_id(k.1 as nat);
                    l.lemma_with_id(k.0 as nat);
                    r.lemma_with_id(k.1 as nat);
                    if k == key {
                        Space::lemma_same_id(l, left_space);
                        Space::lemma_same_id(r, right_space);
                        self.lemma_subtraction_case_extends(before_insert, left_space, right_space, remainder);
                    } else {
                        assert(previous.contains_key(k));
                        self.lemma_subtraction_case_extends(before_insert, l, r, Space::with_id(remainders[k] as nat));
                    }
                }
            }
            assert(self.subtractions_ok());
            self.lemma_memo_changed(before_insert);
        }
        remainder
    }

    /// Subtracts `right_space` from every member and unions what is left.
    fn subtract_from_members(&mut self, members: Vec<Space<O::Type, O::Extractor>>, right_space: Space<O::Type, O::Extractor>) -> (remainder: Space<O::Type, O::Extractor>)
        requires
            old(self).wf(),
            forall|j: int| 0 <= j < members@.len() ==> old(self).ctx().valid_space(#[trigger] members@[j]),
            old(self).ctx().valid_space(right_space),
        ensures
            final(self).evolves(*old(self)),
            final(self).ctx().valid_space(remainder),
            (forall|j: int| 0 <= j < members@.len() ==> (#[trigger] members@[j])@ == 0 || members@[j]@ == right_space@)
                ==> remainder@ == 0,
            final(self).steps() > 0 ==> forall|j: int|
                0 <= j < members@.len() ==> #[trigger] final(self).answered_subtraction(members@[j], right_space) is Some,
            final(self).steps() > 0 && (forall|j: int|
                0 <= j < members@.len() ==> #[trigger] final(self).answered_subtraction(members@[j], right_space) == Some(0nat))
                ==> remainder@ == 0,
            final(self).steps() > 0 ==> final(self).pruned_remainders(members@, right_space, remainder),
        decreases old(self).steps(), 2nat,
    {
        proof {
            self.lemma_ticked(*old(self));
        }
        let mut remainders: Vec<Space<O::Type, O::Extractor>> = Vec::new();
        let mut i: usize = 0;
        while i < members.len()
            invariant
                self.evolves(*old(self)),
                self.steps() <= old(self).steps(),
                i <= members@.len(),
                remainders@.len() == i,
                forall|j: int| 0 <= j < i ==> (members@[j]@ == 0 || members@[j]@ == right_space@) ==> (#[trigger] remainders@[j])@ == 0,
                forall|j: int| 0 <= j < members@.len() ==> self.ctx().valid_space(#[trigger] members@[j]),
                forall|j: int| 0 <= j < remainders@.len() ==> self.ctx().valid_space(#[trigger] remainders@[j]),
                self.ctx().valid_space(right_space),
                self.steps() > 0 ==> forall|j: int|
                    0 <= j < i ==> #[trigger] self.answered_subtraction(members@[j], right_space) == Some(remainders@[j]@),
            decreases members@.len() - i,
        {
            let ghost before = *self;
            let remainder = self.subtract(members[i], right_space);
            proof {
                Self::lemma_evolves_trans(*self, before, *old(self));
                if self.steps() > 0 {
                    assert forall|j: int| 0 <= j < i implies #[trigger] self.answered_subtraction(members@[j], right_space)
                        == Some(remainders@[j]@) by {
                        self.lemma_subtraction_answer_kept(before, members@[j], right_space);
                    }
                }
            }
            remainders.push(remainder);
            i = i + 1;
        }
        let ghost before = *self;
        let union = self.build_pruned_union_from_members(remainders);
        proof {
            Self::lemma_evolves_trans(*self, before, *old(self));
            if self.steps() > 0 {
                assert forall|j: int| 0 <= j < members@.len() implies #[trigger] self.answered_subtraction(members@[j], right_space)
                    == Some(remainders@[j]@) by {
                    self.lemma_subtraction_answer_kept(before, members@[j], right_space);
                }
                if forall|j: int|
                    0 <= j < members@.len() ==> #[trigger] self.answered_subtraction(members@[j], right_space) == Some(0nat) {
                    assert forall|j: int| 0 <= j < remainders@.len() implies (#[trigger] remainders@[j])@ == 0 by {
                        assert(self.answered_subtraction(members@[j], right_space) == Some(0nat));
                    }
                }
                let stages = choose|stages: Seq<Seq<Space<O::Type, O::Extractor>>>|
                    #[trigger] self.prunes_to(self.ctx().union_member_list(remainders@), stages) && self.ctx().is_union_of(
                        union,
                        stages.last(),
                    );
                assert forall|j: int| 0 <= j < members@.len() implies self.ctx().valid_space(#[trigger] remainders@[j]) && self.answered_subtraction(
                    members@[j],
                    right_space,
                ) == Some(remainders@[j]@) by {
                    assert(before.ctx().valid_space(remainders@[j]));
                }
                assert(self.pruned_remainders(members@, right_space, union));
            }
        }
        union
    }

    #[verifier::loop_isolation(false)]
    fn compute_subtraction(&mut self, left_space: Space<O::Type, O::Extractor>, right_space: Space<O::Type, O::Extractor>) -> (remainder: Space<O::Type, O::Extractor>)
        requires
            old(self).wf(),
            old(self).ctx().valid_space(left_space),
            old(self).ctx().valid_space(right_space),
        ensures
            final(self).evolves(*old(self)),
            final(self).ctx().valid_space(remainder),
            left_space@ == 0 ==> remainder@ == 0,
            left_space@ != 0 && right_space@ == 0 ==> remainder == left_space,
            left_space@ != 0 && right_space@ != 0 ==> ((old(self).ctx().node(left_space), old(self).ctx().node(right_space)) matches (
                SpaceNode::Type { value_type: kl, .. },
                SpaceNode::Type { value_type: kr, .. },
            ) ==> remainder@ == 0 || exists|cl: TI::Key, cr: TI::Key|
                #![trigger cloned::<TI::Key>(kl, cl), cloned::<TI::Key>(kr, cr)]
                cloned::<TI::Key>(kl, cl) && cloned::<TI::Key>(kr, cr) && call_ensures(
                    O::is_subtype,
                    (&old(self).ops(), &old(self).ctx().type_interner().item(cl), &old(self).ctx().type_interner().item(cr)),
                    false,
                )),
            left_space@ != 0 && right_space@ != 0 ==> ((old(self).ctx().node(left_space), old(self).ctx().node(right_space)) matches (
                SpaceNode::Product { value_type: kl, .. },
                SpaceNode::Type { value_type: kr, .. },
            ) ==> remainder@ == 0 || exists|cl: TI::Key, cr: TI::Key|
                #![trigger cloned::<TI::Key>(kl, cl), cloned::<TI::Key>(kr, cr)]
                cloned::<TI::Key>(kl, cl) && cloned::<TI::Key>(kr, cr) && call_ensures(
                    O::is_subtype,
                    (&old(self).ops(), &old(self).ctx().type_interner().item(cl), &old(self).ctx().type_interner().item(cr)),
                    false,
                )),
            left_space@ != 0 && right_space@ != 0 ==> ((old(self).ctx().node(left_space), old(self).ctx().node(right_space)) matches (
                SpaceNode::Product { parameters: pl, .. },
                SpaceNode::Product { parameters: pr, .. },
            ) ==> (pl@.len() != pr@.len() ==> remainder == left_space)),
            left_space@ != 0 && right_space@ != 0 && left_space@ != right_space@ && final(self).steps() > 0
                ==> final(self).subtraction_case_ok(left_space, right_space, remainder),
        decreases old(self).steps(), 3nat,
    {
        proof {
            self.lemma_ticked(*old(self));
        }
        let left_node = self.node_snapshot(left_space);
        let right_node = self.node_snapshot(right_space);
        match (left_node, right_node) {
            (NodeSnapshot::Empty, _) => self.context.empty(),
            (_, NodeSnapshot::Empty) => left_space,
            (NodeSnapshot::Union(members), _) => {
                let remainder = self.subtract_from_members(members, right_space);
                proof {
                    self.lemma_node_kept(*old(self), left_space);
                }
                remainder
            },
            (left_node, NodeSnapshot::Union(members)) => {
                let ghost mut s_filtered = *self;
                let ghost mut left_copy: Option<TI::Key> = None;
                proof {
                    s_filtered.lemma_evolves_refl();
                }
                if let NodeSnapshot::Type { value_type, .. } = left_node {
                    let ghost before = *self;
                    let filtered = self.filtered_decomposed_type_union(&value_type, right_space);
                    let ghost s2 = *self;
                    proof {
                        Self::lemma_evolves_trans(s2, before, *old(self));
                        s_filtered = s2;
                        left_copy = Some(value_type);
                    }
                    if let Some(filtered_left) = filtered {
                        let remainder = self.subtract(filtered_left, right_space);
                        proof {
                            Self::lemma_evolves_trans(*self, s2, *old(self));
                            self.lemma_node_kept(*old(self), left_space);
                            self.lemma_node_kept(*old(self), right_space);
                            if TI::Key::obeys_eq_spec() && self.steps() > 0 && right_space@ != 0 && left_space@ != 0 {
                                Self::lemma_evolves_trans(*self, s2, before);
                                self.lemma_filtered_to_kept(s2, value_type, right_space, filtered_left);
                                let kl = old(self).ctx().node(left_space)->Type_value_type;
                                assert(cloned::<TI::Key>(kl, value_type));
                                assert(self.subtraction_case_ok(left_space, right_space, remainder));
                            }
                        }
                        return remainder;
                    }
                }
                proof {
                    self.lemma_evolves_refl();
                }
                let mut remainder = left_space;
                let ghost mut chain: Seq<nat> = seq![left_space@];
                let mut i: usize = 0;
                while i < members.len()
                    invariant
                        self.evolves(*old(self)),
                        self.steps() <= old(self).steps(),
                        i <= members@.len(),
                        forall|j: int| 0 <= j < members@.len() ==> self.ctx().valid_space(#[trigger] members@[j]),
                        self.ctx().valid_space(remainder),
                        1 <= chain.len() <= i + 1,
                        chain[0] == left_space@,
                        chain.last() == remainder@,
                        chain.len() < i + 1 ==> remainder@ == 0,
                        self.evolves(s_filtered),
                        self.steps() > 0 ==> forall|k: int|
                            0 <= k < chain.len() - 1 ==> chain[k] != 0 && #[trigger] self.answered_subtraction(
                                Space::with_id(chain[k]),
                                members@[k],
                            ) == Some(chain[k + 1]),
                    decreases members@.len() - i,
                {
                    if remainder.is_empty() {
                        break;
                    }
                    let ghost before = *self;
                    let ghost previous = remainder;
                    remainder = self.subtract(remainder, members[i]);
                    proof {
                        Self::lemma_evolves_trans(*self, before, *old(self));
                        Self::lemma_evolves_trans(*self, before, s_filtered);
                        previous.lemma_with_id(0);
                        let extended = chain.push(remainder@);
                        if self.steps() > 0 {
                            assert forall|k: int| 0 <= k < extended.len() - 1 implies extended[k] != 0 && #[trigger] self.answered_subtraction(
                                Space::with_id(extended[k]),
                                members@[k],
                            ) == Some(extended[k + 1]) by {
                                if k < chain.len() - 1 {
                                    self.lemma_subtraction_answer_kept(before, Space::with_id(chain[k]), members@[k]);
                                } else {
                                    assert(k == i);
                                    assert(Space::<O::Type, O::Extractor>::with_id(chain[k]) == previous);
                                }
                            }
                        }
                        chain = extended;
                    }
                    i = i + 1;
                }
                proof {
                    self.lemma_node_kept(*old(self), left_space);
                    self.lemma_node_kept(*old(self), right_space);
                    if self.steps() > 0 && (old(self).ctx().node(left_space) is Product || old(self).ctx().node(left_space) is Type) {
                        assert(chain.len() == chain.len());
                        assert(self.subtracts_each(left_space, members@, remainder));
                    }
                    if TI::Key::obeys_eq_spec() && self.steps() > 0 && old(self).ctx().node(left_space) is Type {
                        let copy = left_copy->Some_0;
                        self.lemma_decomposes_as_extends(s_filtered, copy, Decomposition::NotDecomposable);
                        let kl = old(self).ctx().node(left_space)->Type_value_type;
                        assert(cloned::<TI::Key>(kl, copy));
                    }
                }
                remainder
            },
            (NodeSnapshot::Type { value_type: left_type, .. }, NodeSnapshot::Type { value_type: right_type, .. }) => {
                let ghost kl = self.ctx().node(left_space)->Type_value_type;
                let ghost kr = self.ctx().node(right_space)->Type_value_type;
                let left_is_subtype = self.is_subtype_key(&left_type, &right_type);
                proof {
                    assert(self.subtype_answered(kl, kr, left_is_subtype));
                }
                if left_is_subtype {
                    return self.context.empty();
                }
                proof {
                    assert(old(self).subtraction_case_ok(left_space, right_space, left_space));
                }
                let ghost s1 = *self;
                if self.is_decomposable(&left_type) {
                    let ghost s2 = *self;
                    proof {
                        Self::lemma_evolves_trans(s2, s1, *old(self));
                        if TI::Key::obeys_eq_spec() {
                            s2.lemma_type_decomposes_witness(kl, left_type);
                        }
                    }
                    let decomposed_union = self.decomposed_type_key_union(&left_type);
                    let ghost s3 = *self;
                    proof {
                        Self::lemma_evolves_trans(s3, s2, *old(self));
                    }
                    let remainder = self.subtract(decomposed_union, right_space);
                    proof {
                        Self::lemma_evolves_trans(*self, s3, *old(self));
                        Self::lemma_evolves_trans(*self, s3, s2);
                        self.lemma_subtraction_case_extends(*old(self), left_space, right_space, left_space);
                        self.lemma_node_kept(*old(self), left_space);
                        self.lemma_node_kept(*old(self), right_space);
                        if TI::Key::obeys_eq_spec() {
                            self.lemma_type_decomposes_extends(s2, kl);
                            if self.steps() > 0 {
                                self.lemma_decomposed_near_kept(s3, left_type, decomposed_union);
                                assert(cloned::<TI::Key>(kl, left_type));
                                assert(self.left_decomposition_leaves(kl, right_space, remainder@));
                            }
                        }
                    }
                    return remainder;
                }
                let ghost s2 = *self;
                proof {
                    Self::lemma_evolves_trans(s2, s1, *old(self));
                }
                if self.is_decomposable(&right_type) {
                    let ghost s3 = *self;
                    proof {
                        Self::lemma_evolves_trans(s3, s2, *old(self));
                        if TI::Key::obeys_eq_spec() {
                            s3.lemma_type_decomposes_witness(kr, right_type);
                        }
                    }
                    let decomposed_union = self.decomposed_type_key_union(&right_type);
                    let ghost s4 = *self;
                    proof {
                        Self::lemma_evolves_trans(s4, s3, *old(self));
                    }
                    let remainder = self.subtract(left_space, decomposed_union);
                    proof {
                        Self::lemma_evolves_trans(*self, s4, *old(self));
                        Self::lemma_evolves_trans(*self, s4, s3);
                        self.lemma_subtraction_case_extends(*old(self), left_space, right_space, left_space);
                        self.lemma_node_kept(*old(self), left_space);
                        self.lemma_node_kept(*old(self), right_space);
                        if TI::Key::obeys_eq_spec() {
                            self.lemma_type_decomposes_extends(s3, kr);
                            if self.steps() > 0 {
                                self.lemma_decomposed_near_kept(s4, right_type, decomposed_union);
                                left_space.lemma_with_id(0);
                                assert(cloned::<TI::Key>(kr, right_type));
                                assert(self.right_decomposition_leaves(left_space@, kr, remainder@));
                            }
                        }
                    }
                    return remainder;
                }
                proof {
                    Self::lemma_evolves_trans(*self, s2, *old(self));
                    self.lemma_subtraction_case_extends(*old(self), left_space, right_space, left_space);
                }
                left_space
            },
            (
                NodeSnapshot::Type { value_type: left_type, .. },
                NodeSnapshot::Product { value_type: right_type, extractor: right_extractor, parameters: right_parameters },
            ) => {
                let ghost kl = self.ctx().node(left_space)->Type_value_type;
                let ghost kr = self.ctx().node(right_space)->Product_value_type;
                let ghost xr = self.ctx().node(right_space)->Product_extractor;
                let ghost s1 = *self;
                let lifted = self.lifted_product_space(&left_type, &right_type, &right_extractor, right_parameters.len(), &left_type);
                let ghost s2 = *self;
                proof {
                    Self::lemma_evolves_trans(s2, s1, *old(self));
                    if lifted is Some {
                        assert(cloned::<TI::Key>(kl, left_type) && cloned::<TI::Key>(kr, right_type) && cloned::<EI::Key>(xr, right_extractor));
                        assert(s1.lifts_into(kl, kr, xr, right_parameters@.len()));
                        s2.lemma_lifts_into_extends(s1, kl, kr, xr, right_parameters@.len());
                    }
                }
                if let Some(lifted_product_space) = lifted {
                    let remainder = self.subtract(lifted_product_space, right_space);
                    proof {
                        Self::lemma_evolves_trans(*self, s2, *old(self));
                        self.lemma_node_kept(*old(self), left_space);
                        self.lemma_node_kept(*old(self), right_space);
                        self.lemma_lifts_into_extends(s2, kl, kr, xr, right_parameters@.len());
                    }
                    return remainder;
                }
                if self.is_decomposable(&left_type) {
                    let ghost s3 = *self;
                    proof {
                        Self::lemma_evolves_trans(s3, s2, *old(self));
                        if TI::Key::obeys_eq_spec() {
                            s3.lemma_type_decomposes_witness(kl, left_type);
                        }
                    }
                    let decomposed_union = self.decomposed_type_key_union(&left_type);
                    let ghost s4 = *self;
                    proof {
                        Self::lemma_evolves_trans(s4, s3, *old(self));
                    }
                    let remainder = self.subtract(decomposed_union, right_space);
                    proof {
                        Self::lemma_evolves_trans(*self, s4, *old(self));
                        Self::lemma_evolves_trans(*self, s4, s3);
                        self.lemma_node_kept(*old(self), left_space);
                        self.lemma_node_kept(*old(self), right_space);
                        if TI::Key::obeys_eq_spec() {
                            self.lemma_type_decomposes_extends(s3, kl);
                            if self.steps() > 0 {
                                self.lemma_decomposed_near_kept(s4, left_type, decomposed_union);
                                assert(cloned::<TI::Key>(kl, left_type));
                                assert(self.left_decomposition_leaves(kl, right_space, remainder@));
                            }
                        }
                    }
                    return remainder;
                }
                proof {
                    Self::lemma_evolves_trans(*self, s2, *old(self));
                }
                left_space
            },
            (NodeSnapshot::Product { value_type: left_type, .. }, NodeSnapshot::Type { value_type: right_type, .. }) => {
                let ghost kl = self.ctx().node(left_space)->Product_value_type;
                let ghost kr = self.ctx().node(right_space)->Type_value_type;
                let left_is_subtype = self.is_subtype_key(&left_type, &right_type);
                proof {
                    assert(self.subtype_answered(kl, kr, left_is_subtype));
                }
                if left_is_subtype {
                    return self.context.empty();
                }
                let ghost s0 = *self;
                let ghost s1 = *self;
                let simplified_left = self.simplify(left_space);
                let ghost s2 = *self;
                proof {
                    Self::lemma_evolves_trans(s2, s1, *old(self));
                    s2.lemma_node_kept(*old(self), left_space);
                    s2.lemma_node_kept(*old(self), right_space);
                }
                if simplified_left.is_empty() {
                    return self.context.empty();
                }
                if self.is_decomposable(&right_type) {
                    let ghost s3 = *self;
                    proof {
                        Self::lemma_evolves_trans(s3, s2, *old(self));
                        if TI::Key::obeys_eq_spec() {
                            s3.lemma_type_decomposes_witness(kr, right_type);
                        }
                    }
                    let decomposed_union = self.decomposed_type_key_union(&right_type);
                    let ghost s4 = *self;
                    proof {
                        Self::lemma_evolves_trans(s4, s3, *old(self));
                    }
                    let remainder = self.subtract(simplified_left, decomposed_union);
                    proof {
                        Self::lemma_evolves_trans(*self, s4, *old(self));
                        Self::lemma_evolves_trans(*self, s4, s2);
                        Self::lemma_evolves_trans(*self, s4, s3);
                        self.lemma_node_kept(*old(self), left_space);
                        self.lemma_node_kept(*old(self), right_space);
                        if TI::Key::obeys_eq_spec() {
                            self.lemma_type_decomposes_extends(s3, kr);
                            if self.steps() > 0 {
                                self.lemma_decomposed_near_kept(s4, right_type, decomposed_union);
                                self.lemma_simplification_kept(s2, left_space);
                                simplified_left.lemma_with_id(0);
                                assert(cloned::<TI::Key>(kr, right_type));
                                assert(self.remembered_simplification(left_space) == Some(simplified_left@));
                                assert(self.right_decomposition_leaves(simplified_left@, kr, remainder@));
                            }
                        }
                        self.lemma_simplification_kept(s2, left_space);
                        Self::lemma_evolves_trans(*self, s2, s0);
                        self.lemma_subtype_answered_kept_all(s0, kl, kr);
                        assert(self.subtype_answered(kl, kr, false));
                    }
                    return remainder;
                }
                proof {
                    Self::lemma_evolves_trans(*self, s2, *old(self));
                    Self::lemma_evolves_trans(*self, s2, s0);
                    self.lemma_node_kept(*old(self), left_space);
                    self.lemma_node_kept(*old(self), right_space);
                    self.lemma_subtype_answered_kept_all(s0, kl, kr);
                    assert(self.subtype_answered(kl, kr, false));
                }
                simplified_left
            },
            (
                NodeSnapshot::Product { value_type, extractor, parameters: left_parameters },
                NodeSnapshot::Product { extractor: right_extractor, parameters: right_parameters, .. },
            ) => {
                if !self.same_product_shape(&extractor, &right_extractor, left_parameters.len(), right_parameters.len()) {
                    proof {
                        let xl = self.ctx().node(left_space)->Product_extractor;
                        let xr = self.ctx().node(right_space)->Product_extractor;
                        assert(cloned::<EI::Key>(xl, extractor) && cloned::<EI::Key>(xr, right_extractor));
                        if left_parameters@.len() == right_parameters@.len() {
                            assert(self.extractors_answered(xl, xr, false));
                        }
                    }
                    return left_space;
                }
                let remainder = self.subtract_product_parameters(left_space, value_type, extractor, left_parameters, right_parameters);
                proof {
                    self.lemma_node_kept(*old(self), left_space);
                    self.lemma_node_kept(*old(self), right_space);
                }
                remainder
            },
        }
    }

    /// Subtracts two products of the same shape, parameter by parameter.
    fn subtract_product_parameters(
        &mut self,
        left_space: Space<O::Type, O::Extractor>,
        value_type_key: TI::Key,
        extractor: EI::Key,
        left_parameters: Vec<Space<O::Type, O::Extractor>>,
        right_parameters: Vec<Space<O::Type, O::Extractor>>,
    ) -> (remainder: Space<O::Type, O::Extractor>)
        requires
            old(self).wf(),
            old(self).ctx().valid_space(left_space),
            left_space@ != 0,
            old(self).ctx().type_interner().valid_key(value_type_key),
            old(self).ctx().extractor_interner().valid_key(extractor),
            left_parameters@.len() == right_parameters@.len(),
            forall|j: int| 0 <= j < left_parameters@.len() ==> old(self).ctx().valid_space(#[trigger] left_parameters@[j]),
            forall|j: int| 0 <= j < right_parameters@.len() ==> old(self).ctx().valid_space(#[trigger] right_parameters@[j]),
        ensures
            final(self).evolves(*old(self)),
            final(self).ctx().valid_space(remainder),
            left_parameters@.len() == 0 ==> remainder@ == 0,
            final(self).steps() > 0 && remainder != left_space ==> forall|j: int|
                0 <= j < left_parameters@.len() ==> #[trigger] final(self).parameter_reduced(left_parameters@[j], right_parameters@[j]),
            final(self).steps() > 0 && remainder != left_space && remainder@ != 0 ==> final(self).rebuilt_from_slots(
                left_parameters@,
                right_parameters@,
                remainder,
            ),
            final(self).steps() > 0 && remainder == left_space ==> (exists|j: int|
                0 <= j < left_parameters@.len() && #[trigger] final(self).parameter_kept(left_parameters@[j], right_parameters@[j]))
                || final(self).rebuilt_from_slots(left_parameters@, right_parameters@, remainder),
            final(self).steps() > 0 && remainder@ == 0 ==> (forall|j: int|
                0 <= j < left_parameters@.len() ==> #[trigger] final(self).parameter_emptied(left_parameters@[j], right_parameters@[j]))
                || final(self).rebuilt_from_slots(left_parameters@, right_parameters@, remainder),
        decreases old(self).steps(), 2nat,
    {
        proof {
            self.lemma_ticked(*old(self));
        }
        let mut parameter_remainders: Vec<Space<O::Type, O::Extractor>> = Vec::new();
        let ghost mut subtractions: Seq<nat> = Seq::empty();
        let mut i: usize = 0;
        while i < left_parameters.len()
            invariant
                self.evolves(*old(self)),
                self.steps() <= old(self).steps(),
                i <= left_parameters@.len(),
                parameter_remainders@.len() == i,
                subtractions.len() == i,
                self.steps() > 0 ==> forall|j: int|
                    0 <= j < i ==> #[trigger] self.answered_subtraction(left_parameters@[j], right_parameters@[j])
                        == Some(subtractions[j]) && self.remembered_simplification(Space::with_id(subtractions[j]))
                        == Some(parameter_remainders@[j]@),
                left_parameters@.len() == right_parameters@.len(),
                forall|j: int| 0 <= j < left_parameters@.len() ==> self.ctx().valid_space(#[trigger] left_parameters@[j]),
                forall|j: int| 0 <= j < right_parameters@.len() ==> self.ctx().valid_space(#[trigger] right_parameters@[j]),
                forall|j: int| 0 <= j < parameter_remainders@.len() ==> self.ctx().valid_space(#[trigger] parameter_remainders@[j]),
            decreases left_parameters@.len() - i,
        {
            let ghost s1 = *self;
            let subtraction = self.subtract(left_parameters[i], right_parameters[i]);
            let ghost s2 = *self;
            proof {
                Self::lemma_evolves_trans(s2, s1, *old(self));
            }
            let remainder = self.simplify(subtraction);
            proof {
                Self::lemma_evolves_trans(*self, s2, *old(self));
                Self::lemma_evolves_trans(*self, s2, s1);
                subtraction.lemma_with_id(0);
                if self.steps() > 0 {
                    assert forall|j: int| 0 <= j < i implies #[trigger] self.answered_subtraction(left_parameters@[j], right_parameters@[j])
                        == Some(subtractions[j]) && self.remembered_simplification(Space::with_id(subtractions[j]))
                        == Some(parameter_remainders@[j]@) by {
                        self.lemma_subtraction_answer_kept(s1, left_parameters@[j], right_parameters@[j]);
                        self.lemma_simplification_kept(s1, Space::with_id(subtractions[j]));
                    }
                    self.lemma_subtraction_answer_kept(s2, left_parameters@[i as int], right_parameters@[i as int]);
                }
            }
            parameter_remainders.push(remainder);
            proof {
                subtractions = subtractions.push(subtraction@);
            }
            i = i + 1;
        }

        let mut i: usize = 0;
        while i < left_parameters.len()
            invariant
                self.evolves(*old(self)),
                self.steps() <= old(self).steps(),
                i <= left_parameters@.len(),
                parameter_remainders@.len() == left_parameters@.len(),
                self.ctx().valid_space(left_space),
                left_space@ != 0,
                forall|j: int| 0 <= j < left_parameters@.len() ==> self.ctx().valid_space(#[trigger] left_parameters@[j]),
                forall|j: int| 0 <= j < parameter_remainders@.len() ==> self.ctx().valid_space(#[trigger] parameter_remainders@[j]),
                subtractions.len() == left_parameters@.len(),
                left_parameters@.len() == right_parameters@.len(),
                self.steps() > 0 ==> forall|j: int|
                    0 <= j < left_parameters@.len() ==> #[trigger] self.answered_subtraction(left_parameters@[j], right_parameters@[j])
                        == Some(subtractions[j]) && self.remembered_simplification(Space::with_id(subtractions[j]))
                        == Some(parameter_remainders@[j]@),
                self.steps() > 0 ==> forall|j: int|
                    0 <= j < i ==> #[trigger] self.parameter_reduced(left_parameters@[j], right_parameters@[j]),
            decreases left_parameters@.len() - i,
        {
            let ghost before = *self;
            let unchanged = self.is_subspace(left_parameters[i], parameter_remainders[i]);
            proof {
                Self::lemma_evolves_trans(*self, before, *old(self));
                if self.steps() > 0 {
                    assert forall|j: int| 0 <= j < left_parameters@.len() implies #[trigger] self.answered_subtraction(left_parameters@[j], right_parameters@[j])
                        == Some(subtractions[j]) && self.remembered_simplification(Space::with_id(subtractions[j]))
                        == Some(parameter_remainders@[j]@) by {
                        self.lemma_subtraction_answer_kept(before, left_parameters@[j], right_parameters@[j]);
                        self.lemma_simplification_kept(before, Space::with_id(subtractions[j]));
                    }
                    assert forall|j: int| 0 <= j < i implies #[trigger] self.parameter_reduced(left_parameters@[j], right_parameters@[j]) by {
                        self.lemma_parameter_reduced_extends(before, left_parameters@[j], right_parameters@[j]);
                    }
                    if !unchanged {
                        parameter_remainders@[i as int].lemma_with_id(0);
                        assert(self.answered_subspace(left_parameters@[i as int], Space::with_id(parameter_remainders@[i as int]@)) == Some(false));
                        assert(self.answered_subtraction(left_parameters@[i as int], right_parameters@[i as int]) == Some(subtractions[i as int]));
                        assert(self.remembered_simplification(Space::with_id(subtractions[i as int])) == Some(parameter_remainders@[i as int]@));
                        assert(self.parameter_reduced(left_parameters@[i as int], right_parameters@[i as int]));
                    }
                }
            }
            if unchanged {
                proof {
                    if self.steps() > 0 {
                        parameter_remainders@[i as int].lemma_with_id(0);
                        assert(self.answered_subspace(left_parameters@[i as int], Space::with_id(parameter_remainders@[i as int]@)) == Some(true));
                        assert(self.remembered_simplification(Space::with_id(subtractions[i as int])) == Some(parameter_remainders@[i as int]@));
                        assert(self.parameter_kept(left_parameters@[i as int], right_parameters@[i as int]));
                    }
                }
                return left_space;
            }
            i = i + 1;
        }
        let ghost reduced = *self;

        let mut all_empty = true;
        let mut i: usize = 0;
        while i < parameter_remainders.len()
            invariant
                i <= parameter_remainders@.len(),
                parameter_remainders@.len() == 0 ==> all_empty,
                all_empty ==> forall|j: int| 0 <= j < i ==> (#[trigger] parameter_remainders@[j])@ == 0,
                parameter_remainders@.len() == left_parameters@.len(),
                subtractions.len() == left_parameters@.len(),
                left_parameters@.len() == right_parameters@.len(),
                self.steps() > 0 ==> forall|j: int|
                    0 <= j < left_parameters@.len() ==> #[trigger] self.answered_subtraction(left_parameters@[j], right_parameters@[j])
                        == Some(subtractions[j]) && self.remembered_simplification(Space::with_id(subtractions[j]))
                        == Some(parameter_remainders@[j]@),
            decreases parameter_remainders@.len() - i,
        {
            if !parameter_remainders[i].is_empty() {
                all_empty = false;
            }
            i = i + 1;
        }
        if all_empty {
            proof {
                if self.steps() > 0 {
                    assert forall|j: int| 0 <= j < left_parameters@.len() implies #[trigger] self.parameter_emptied(
                        left_parameters@[j],
                        right_parameters@[j],
                    ) by {
                        assert(parameter_remainders@[j]@ == 0);
                        assert(self.answered_subtraction(left_parameters@[j], right_parameters@[j]) == Some(subtractions[j]));
                        assert(self.remembered_simplification(Space::with_id(subtractions[j])) == Some(parameter_remainders@[j]@));
                    }
                }
            }
            return self.context.empty();
        }

        let mut remaining_spaces: Vec<Space<O::Type, O::Extractor>> = Vec::new();
        let ghost mut pieces: Seq<Seq<Space<O::Type, O::Extractor>>> = Seq::empty();
        let mut parameter_index: usize = 0;
        while parameter_index < parameter_remainders.len()
            invariant
                pieces.len() == parameter_index,
                forall|p: int| 0 <= p < pieces.len() ==> (#[trigger] pieces[p]).len() >= 1,
                self.slot_products(left_parameters@, pieces, remaining_spaces@),
                self.evolves(*old(self)),
                self.steps() <= old(self).steps(),
                parameter_index <= parameter_remainders@.len(),
                parameter_remainders@.len() == left_parameters@.len(),
                forall|j: int| 0 <= j < left_parameters@.len() ==> self.ctx().valid_space(#[trigger] left_parameters@[j]),
                forall|j: int| 0 <= j < parameter_remainders@.len() ==> self.ctx().valid_space(#[trigger] parameter_remainders@[j]),
                forall|j: int| 0 <= j < remaining_spaces@.len() ==> self.ctx().valid_space(#[trigger] remaining_spaces@[j]),
                self.ctx().type_interner().valid_key(value_type_key),
                self.ctx().extractor_interner().valid_key(extractor),
                self.evolves(reduced),
                left_parameters@.len() == right_parameters@.len(),
                subtractions.len() == left_parameters@.len(),
                reduced.steps() > 0 ==> forall|j: int|
                    0 <= j < left_parameters@.len() ==> #[trigger] reduced.answered_subtraction(left_parameters@[j], right_parameters@[j])
                        == Some(subtractions[j]) && reduced.remembered_simplification(Space::with_id(subtractions[j]))
                        == Some(parameter_remainders@[j]@),
                self.steps() > 0 ==> forall|p: int|
                    0 <= p < pieces.len() ==> self.slot_pieces_at(left_parameters@[p], right_parameters@[p], #[trigger] pieces[p]),
            decreases parameter_remainders@.len() - parameter_index,
        {
            let ghost s1 = *self;
            let flattened_spaces = self.flatten_space(parameter_remainders[parameter_index]);
            proof {
                Self::lemma_evolves_trans(*self, s1, *old(self));
                Self::lemma_evolves_trans(*self, s1, reduced);
                self.lemma_slot_products_kept(s1, left_parameters@, pieces, remaining_spaces@);
                if self.steps() > 0 {
                    assert forall|p: int| 0 <= p < pieces.len() implies self.slot_pieces_at(
                        left_parameters@[p],
                        right_parameters@[p],
                        #[trigger] pieces[p],
                    ) by {
                        self.lemma_slot_pieces_kept(s1, left_parameters@[p], right_parameters@[p], pieces[p]);
                    }
                    let q = parameter_index as int;
                    let rem = parameter_remainders@[q];
                    assert(reduced.answered_subtraction(left_parameters@[q], right_parameters@[q]) == Some(subtractions[q]));
                    self.lemma_subtraction_answer_kept(reduced, left_parameters@[q], right_parameters@[q]);
                    self.lemma_simplification_kept(reduced, Space::with_id(subtractions[q]));
                    rem.lemma_with_id(0);
                    if rem@ == 0 {
                        assert(spaces_view(flattened_spaces@) =~= seq![0nat]);
                    }
                    assert(self.remembered_simplification(Space::with_id(subtractions[q])) == Some(rem@));
                    assert(self.slot_pieces_at(left_parameters@[q], right_parameters@[q], flattened_spaces@));
                }
                assert(flattened_spaces@.take(0) =~= Seq::<Space<O::Type, O::Extractor>>::empty());
                let partial = pieces.push(flattened_spaces@.take(0));
                assert(partial.drop_last() =~= pieces);
                assert(slot_list(partial) =~= slot_list(pieces));
            }
            let mut k: usize = 0;
            while k < flattened_spaces.len()
                invariant
                    pieces.len() == parameter_index,
                    self.slot_products(left_parameters@, pieces.push(flattened_spaces@.take(k as int)), remaining_spaces@),
                    self.evolves(*old(self)),
                    self.steps() <= old(self).steps(),
                    k <= flattened_spaces@.len(),
                    parameter_index < left_parameters@.len(),
                    parameter_remainders@.len() == left_parameters@.len(),
                    forall|j: int| 0 <= j < parameter_remainders@.len() ==> self.ctx().valid_space(#[trigger] parameter_remainders@[j]),
                    forall|j: int| 0 <= j < left_parameters@.len() ==> self.ctx().valid_space(#[trigger] left_parameters@[j]),
                    forall|j: int| 0 <= j < flattened_spaces@.len() ==> self.ctx().valid_space(#[trigger] flattened_spaces@[j]),
                    forall|j: int| 0 <= j < remaining_spaces@.len() ==> self.ctx().valid_space(#[trigger] remaining_spaces@[j]),
                    self.ctx().type_interner().valid_key(value_type_key),
                    self.ctx().extractor_interner().valid_key(extractor),
                    self.evolves(reduced),
                    left_parameters@.len() == right_parameters@.len(),
                    self.steps() > 0 ==> forall|p: int|
                        0 <= p < pieces.len() ==> self.slot_pieces_at(left_parameters@[p], right_parameters@[p], #[trigger] pieces[p]),
                    self.steps() > 0 ==> self.slot_pieces_at(
                        left_parameters@[parameter_index as int],
                        right_parameters@[parameter_index as int],
                        flattened_spaces@,
                    ),
                decreases flattened_spaces@.len() - k,
            {
                let mut scratch = Self::copy_spaces(&left_parameters);
                scratch.set(parameter_index, flattened_spaces[k]);
                let value_type_copy = self.clone_type_key(&value_type_key);
                let extractor_copy = self.clone_extractor_key(&extractor);
                let ghost before = *self;
                let ghost scratch_list = scratch@;
                let product = self.make_product_space_from_keys(value_type_copy, extractor_copy, scratch);
                proof {
                    Self::lemma_evolves_trans(*self, before, *old(self));
                    if self.steps() > 0 {
                        assert forall|p: int| 0 <= p < pieces.len() implies self.slot_pieces_at(
                            left_parameters@[p],
                            right_parameters@[p],
                            #[trigger] pieces[p],
                        ) by {
                            self.lemma_slot_pieces_kept(before, left_parameters@[p], right_parameters@[p], pieces[p]);
                        }
                        self.lemma_slot_pieces_kept(
                            before,
                            left_parameters@[parameter_index as int],
                            right_parameters@[parameter_index as int],
                            flattened_spaces@,
                        );
                    }
                    Self::lemma_evolves_trans(*self, before, reduced);
                    self.lemma_slot_products_kept(before, left_parameters@, pieces.push(flattened_spaces@.take(k as int)), remaining_spaces@);
                }
                let ghost previous = remaining_spaces@;
                remaining_spaces.push(product);
                proof {
                    let old_partial = pieces.push(flattened_spaces@.take(k as int));
                    let partial = pieces.push(flattened_spaces@.take(k + 1));
                    assert(partial.drop_last() =~= pieces);
                    assert(old_partial.drop_last() =~= pieces);
                    let f = |piece: Space<O::Type, O::Extractor>| (parameter_index as int, piece);
                    assert(flattened_spaces@.take(k + 1).map_values(f) =~= flattened_spaces@.take(k as int).map_values(f).push(
                        (parameter_index as int, flattened_spaces@[k as int]),
                    ));
                    assert(slot_list(partial) =~= slot_list(old_partial).push((parameter_index as int, flattened_spaces@[k as int])));
                    assert(scratch_list == left_parameters@.update(parameter_index as int, flattened_spaces@[k as int]));
                    assert forall|t: int| 0 <= t < remaining_spaces@.len() implies {
                        &&& self.ctx().valid_space(#[trigger] remaining_spaces@[t])
                        &&& remaining_spaces@[t]@ != 0
                        &&& self.ctx().node(remaining_spaces@[t]) is Product
                        &&& product_parameters(self.ctx().node(remaining_spaces@[t])) == left_parameters@.update(
                            slot_list(partial)[t].0,
                            slot_list(partial)[t].1,
                        )
                    } by {
                        if t < previous.len() {
                            assert(remaining_spaces@[t] == previous[t]);
                            assert(slot_list(partial)[t] == slot_list(old_partial)[t]);
                        }
                    }
                    assert(self.slot_products(left_parameters@, partial, remaining_spaces@));
                }
                k = k + 1;
            }
            proof {
                assert(flattened_spaces@.take(flattened_spaces@.len() as int) =~= flattened_spaces@);
                let next = pieces.push(flattened_spaces@);
                if self.steps() > 0 {
                    assert forall|p: int| 0 <= p < next.len() implies self.slot_pieces_at(
                        left_parameters@[p],
                        right_parameters@[p],
                        #[trigger] next[p],
                    ) by {
                        if p < pieces.len() {
                            assert(next[p] == pieces[p]);
                        }
                    }
                }
                pieces = next;
            }
            parameter_index = parameter_index + 1;
        }
        let ghost before = *self;
        let ghost candidates = remaining_spaces@;
        let union = self.build_pruned_union_from_members(remaining_spaces);
        proof {
            Self::lemma_evolves_trans(*self, before, *old(self));
            Self::lemma_evolves_trans(*self, before, reduced);
            if self.steps() > 0 {
                self.lemma_slot_products_kept(before, left_parameters@, pieces, candidates);
                assert forall|p: int| 0 <= p < pieces.len() implies (#[trigger] pieces[p]).len() >= 1 && self.slot_pieces_at(
                    left_parameters@[p],
                    right_parameters@[p],
                    pieces[p],
                ) by {
                    self.lemma_slot_pieces_kept(before, left_parameters@[p], right_parameters@[p], pieces[p]);
                }
                let stages = choose|stages: Seq<Seq<Space<O::Type, O::Extractor>>>|
                    #[trigger] self.prunes_to(self.ctx().union_member_list(candidates), stages) && self.ctx().is_union_of(
                        union,
                        stages.last(),
                    );
                assert(self.rebuilt_from_slots(left_parameters@, right_parameters@, union));
                assert forall|j: int| 0 <= j < left_parameters@.len() implies #[trigger] self.parameter_reduced(
                    left_parameters@[j],
                    right_parameters@[j],
                ) by {
                    self.lemma_parameter_reduced_extends(reduced, left_parameters@[j], right_parameters@[j]);
                }
            }
        }
        union
    }

    /// The union of `spaces`, leaving out members already covered by an
    /// earlier kept member.
    fn build_pruned_union_from_members(&mut self, spaces: Vec<Space<O::Type, O::Extractor>>) -> (union: Space<O::Type, O::Extractor>)
        requires
            old(self).wf(),
            forall|j: int| 0 <= j < spaces@.len() ==> old(self).ctx().valid_space(#[trigger] spaces@[j]),
        ensures
            final(self).evolves(*old(self)),
            final(self).ctx().valid_space(union),
            (forall|j: int| 0 <= j < spaces@.len() ==> (#[trigger] spaces@[j])@ == 0) ==> union@ == 0,
            final(self).steps() > 0 ==> exists|stages: Seq<Seq<Space<O::Type, O::Extractor>>>|
                #[trigger] final(self).prunes_to(final(self).ctx().union_member_list(spaces@), stages) && final(self).ctx().is_union_of(
                    union,
                    stages.last(),
                ),
        decreases old(self).steps(), 1nat,
    {
        proof {
            self.lemma_ticked(*old(self));
        }
        let mut flattened_members: Vec<Space<O::Type, O::Extractor>> = Vec::new();
        let mut i: usize = 0;
        while i < spaces.len()
            invariant
                self.wf(),
                *self == *old(self),
                i <= spaces@.len(),
                (forall|j: int| 0 <= j < i ==> (#[trigger] spaces@[j])@ == 0) ==> flattened_members@.len() == 0,
                forall|j: int| 0 <= j < spaces@.len() ==> self.ctx().valid_space(#[trigger] spaces@[j]),
                self.ctx().member_list_ok(flattened_members@),
                flattened_members@ == self.ctx().union_member_list(spaces@.take(i as int)),
            decreases spaces@.len() - i,
        {
            self.context.extend_union_members(&mut flattened_members, spaces[i]);
            proof {
                assert(spaces@.take(i + 1).drop_last() =~= spaces@.take(i as int));
                assert(spaces@.take(i + 1).last() == spaces@[i as int]);
            }
            i = i + 1;
        }
        let mut useful_members: Vec<Space<O::Type, O::Extractor>> = Vec::new();
        let ghost candidates = flattened_members@;
        let ghost mut stages: Seq<Seq<Space<O::Type, O::Extractor>>> = seq![Seq::empty()];
        proof {
            assert(candidates =~= old(self).ctx().union_member_list(spaces@)) by {
                assert(spaces@.take(spaces@.len() as int) =~= spaces@);
            }
        }
        let mut i: usize = 0;
        while i < flattened_members.len()
            invariant
                candidates == flattened_members@,
                stages.len() == i + 1,
                stages[0] == Seq::<Space<O::Type, O::Extractor>>::empty(),
                stages[i as int] == useful_members@,
                self.steps() > 0 ==> forall|s: int| 0 <= s < i ==> #[trigger] self.prune_step(stages[s], candidates[s], stages[s + 1]),
                self.evolves(*old(self)),
                self.steps() <= old(self).steps(),
                i <= flattened_members@.len(),
                useful_members@.len() <= i,
                self.ctx().member_list_ok(flattened_members@),
                self.ctx().member_list_ok(useful_members@),
            decreases flattened_members@.len() - i,
        {
            let space = flattened_members[i];
            let mut already_covered = false;
            let ghost mut witness: int = 0;
            let ghost loop_start = *self;
            let mut k: usize = 0;
            while k < useful_members.len()
                invariant_except_break
                    !already_covered,
                invariant
                    self.evolves(loop_start),
                    !already_covered ==> (self.steps() > 0 ==> forall|m: int|
                        0 <= m < k ==> #[trigger] self.answered_subspace(space, useful_members@[m]) == Some(false)),
                    already_covered ==> (self.steps() > 0 ==> 0 <= witness < useful_members@.len() && self.answered_subspace(
                        space,
                        useful_members@[witness],
                    ) == Some(true)),
                    self.evolves(*old(self)),
                    self.steps() <= old(self).steps(),
                    k <= useful_members@.len(),
                    i < flattened_members@.len(),
                    space == flattened_members@[i as int],
                    self.ctx().member_list_ok(flattened_members@),
                    self.ctx().member_list_ok(useful_members@),
                ensures
                    self.evolves(loop_start),
                    !already_covered ==> (self.steps() > 0 ==> forall|m: int|
                        0 <= m < useful_members@.len() ==> #[trigger] self.answered_subspace(space, useful_members@[m]) == Some(false)),
                    already_covered ==> (self.steps() > 0 ==> 0 <= witness < useful_members@.len() && self.answered_subspace(
                        space,
                        useful_members@[witness],
                    ) == Some(true)),
                    self.evolves(*old(self)),
                    self.steps() <= old(self).steps(),
                    i < flattened_members@.len(),
                    space == flattened_members@[i as int],
                    self.ctx().member_list_ok(flattened_members@),
                    self.ctx().member_list_ok(useful_members@),
                decreases useful_members@.len() - k,
            {
                let ghost before = *self;
                proof {
                    assert(1 <= flattened_members@[i as int]@ <= self.ctx().nodes().len());
                    assert(1 <= useful_members@[k as int]@ <= self.ctx().nodes().len());
                }
                let covered = self.is_subspace(space, useful_members[k]);
                proof {
                    Self::lemma_evolves_trans(*self, before, *old(self));
                    Self::lemma_evolves_trans(*self, before, loop_start);
                    self.ctx().lemma_member_list_extends(before.ctx(), flattened_members@);
                    self.ctx().lemma_member_list_extends(before.ctx(), useful_members@);
                    if self.steps() > 0 {
                        assert forall|m: int| 0 <= m < k implies #[trigger] self.answered_subspace(space, useful_members@[m]) == Some(false) by {
                            assert(before.answered_subspace(space, useful_members@[m]) == Some(false));
                            self.lemma_answered_kept(before, space, useful_members@[m]);
                        }
                    }
                }
                if covered {
                    already_covered = true;
                    proof {
                        witness = k as int;
                    }
                    break;
                }
                k = k + 1;
            }
            proof {
                if self.steps() > 0 {
                    assert forall|s: int| 0 <= s < i implies #[trigger] self.prune_step(stages[s], candidates[s], stages[s + 1]) by {
                        assert(loop_start.prune_step(stages[s], candidates[s], stages[s + 1]));
                        self.lemma_prune_step_kept(loop_start, stages[s], candidates[s], stages[s + 1]);
                    }
                }
            }
            let ghost kept_before = useful_members@;
            if !already_covered {
                proof {
                    assert(1 <= flattened_members@[i as int]@ <= self.ctx().nodes().len());
                }
                useful_members.push(space);
            }
            proof {
                assert(candidates[i as int] == space);
                if self.steps() > 0 {
                    assert(self.prune_step(kept_before, candidates[i as int], useful_members@));
                }
                stages = stages.push(useful_members@);
                assert forall|s: int| 0 <= s < i + 1 && self.steps() > 0 implies #[trigger] self.prune_step(stages[s], candidates[s], stages[s + 1]) by {
                    if s < i {
                        assert(stages[s] == stages.drop_last()[s] && stages[s + 1] == stages.drop_last()[s + 1]);
                    }
                }
            }
            i = i + 1;
        }
        let ghost before = *self;
        let union = self.build_union_from_members(useful_members);
        proof {
            Self::lemma_evolves_trans(*self, before, *old(self));
            if self.steps() > 0 {
                self.ctx().lemma_union_member_list_extends(old(self).ctx(), spaces@);
                self.lemma_prunes_to_kept(before, candidates, stages);
                assert(self.prunes_to(self.ctx().union_member_list(spaces@), stages));
            }
        }
        union
    }

    // ----- flattening -----
    /// The spaces a space stands for once unions are spread out and products
    /// are expanded into one product per combination of their parameters.
    pub(crate) fn flatten_space(&mut self, space: Space<O::Type, O::Extractor>) -> (flattened: Vec<Space<O::Type, O::Extractor>>)
        requires
            old(self).wf(),
            old(self).ctx().valid_space(space),
        ensures
            final(self).evolves(*old(self)),
            flattened@.len() >= 1,
            forall|j: int| 0 <= j < flattened@.len() ==> final(self).ctx().valid_space(#[trigger] flattened@[j])
                && !final(self).ctx().is_union(flattened@[j]),
            space@ == 0 ==> flattened@ == seq![space],
            space@ != 0 ==> forall|j: int| 0 <= j < flattened@.len() ==> (#[trigger] flattened@[j])@ != 0,
            final(self).steps() > 0 && space@ != 0 ==> final(self).remembered_flattening(space) == Some(
                spaces_view(flattened@),
            ),
        decreases old(self).steps(), 0nat,
    {
        proof {
            self.lemma_ticked(*old(self));
        }
        if space.is_empty() {
            let mut flattened: Vec<Space<O::Type, O::Extractor>> = Vec::new();
            flattened.push(space);
            return flattened;
        }
        if let Some(ids) = space_list_map_get(&self.caches.memo.flattened_spaces, space.raw_id()) {
            proof {
                assert(space_list_entries(self.caches.memo.flattened_spaces).contains_key(space@ as usize));
            }
            let flattened = Self::spaces_of_ids(&ids);
            proof {
                assert forall|j: int| 0 <= j < flattened@.len() implies self.ctx().valid_space(#[trigger] flattened@[j])
                    && !self.ctx().is_union(flattened@[j]) by {
                    assert(ids@[j] == flattened@[j]@);
                }
                assert(ids@.map_values(|id: usize| id as nat) =~= spaces_view(flattened@));
            }
            return flattened;
        }
        if !self.tick() {
            match self.node_snapshot(space) {
                NodeSnapshot::Union(members) => {
                    return members;
                },
                _ => {
                    let mut flattened: Vec<Space<O::Type, O::Extractor>> = Vec::new();
                    flattened.push(space);
                    return flattened;
                },
            }
        }
        proof {
            self.lemma_ticked(*old(self));
        }
        let mut flattened: Vec<Space<O::Type, O::Extractor>> = Vec::new();
        let ghost before = *self;
        self.flatten_space_into(space, &mut flattened);
        proof {
            Self::lemma_evolves_trans(*self, before, *old(self));
        }
        let ids = Self::space_ids(&flattened);
        if let Some(remembered) = space_list_map_get(&self.caches.memo.flattened_spaces, space.raw_id()) {
            proof {
                assert(space_list_entries(self.caches.memo.flattened_spaces).contains_key(space@ as usize));
            }
            let flattened = Self::spaces_of_ids(&remembered);
            proof {
                assert forall|j: int| 0 <= j < flattened@.len() implies self.ctx().valid_space(#[trigger] flattened@[j])
                    && !self.ctx().is_union(flattened@[j]) by {
                    assert(remembered@[j] == flattened@[j]@);
                }
                assert(remembered@.map_values(|id: usize| id as nat) =~= spaces_view(flattened@));
            }
            return flattened;
        }
        let ghost before_insert = *self;
        space_list_map_insert(&mut self.caches.memo.flattened_spaces, space.raw_id(), ids);
        proof {
            let nodes = self.ctx().nodes();
            let entries = space_list_entries(self.caches.memo.flattened_spaces);
            assert forall|j: int| 0 <= j < ids@.len() implies #[trigger] ids@[j] <= nodes.len() && (ids@[j] != 0
                ==> !(nodes[ids@[j] - 1] is Union)) by {
                assert(ids@[j] == flattened@[j]@);
            }
            assert(entries[space@ as usize]@ == ids@);
            self.lemma_memo_changed(before_insert);
        }
        flattened
    }

    /// The raw ids of `spaces`, in order.
    fn space_ids(spaces: &Vec<Space<O::Type, O::Extractor>>) -> (ids: Vec<usize>)
        ensures
            ids@.len() == spaces@.len(),
            forall|j: int| 0 <= j < ids@.len() ==> #[trigger] ids@[j] == spaces@[j]@,
    {
        let mut ids: Vec<usize> = Vec::new();
        let mut i: usize = 0;
        while i < spaces.len()
            invariant
                i <= spaces@.len(),
                ids@.len() == i,
                forall|j: int| 0 <= j < i ==> #[trigger] ids@[j] == spaces@[j]@,
            decreases spaces@.len() - i,
        {
            ids.push(spaces[i].raw_id());
            i = i + 1;
        }
        ids
    }

    /// The handles with the given raw ids, in order.
    fn spaces_of_ids(ids: &Vec<usize>) -> (spaces: Vec<Space<O::Type, O::Extractor>>)
        ensures
            spaces@.len() == ids@.len(),
            forall|j: int| 0 <= j < ids@.len() ==> #[trigger] spaces@[j]@ == ids@[j],
    {
        let mut spaces: Vec<Space<O::Type, O::Extractor>> = Vec::new();
        let mut i: usize = 0;
        while i < ids.len()
            invariant
                i <= ids@.len(),
                spaces@.len() == i,
                forall|j: int| 0 <= j < i ==> #[trigger] spaces@[j]@ == ids@[j],
            decreases ids@.len() - i,
        {
            spaces.push(Space::from_raw_id(ids[i]));
            i = i + 1;
        }
        spaces
    }

    fn flatten_space_into(&mut self, space: Space<O::Type, O::Extractor>, flattened: &mut Vec<Space<O::Type, O::Extractor>>)
        requires
            old(self).wf(),
            old(self).ctx().valid_space(space),
            space@ != 0,
            forall|j: int| 0 <= j < old(flattened)@.len() ==> old(self).ctx().valid_space(#[trigger] old(flattened)@[j])
                && !old(self).ctx().is_union(old(flattened)@[j]) && old(flattened)@[j]@ != 0,
        ensures
            final(self).evolves(*old(self)),
            final(flattened)@.len() > old(flattened)@.len(),
            forall|j: int| 0 <= j < final(flattened)@.len() ==> final(self).ctx().valid_space(#[trigger] final(flattened)@[j])
                && !final(self).ctx().is_union(final(flattened)@[j]) && final(flattened)@[j]@ != 0,
        decreases old(self).steps(), 2nat,
    {
        proof {
            self.lemma_ticked(*old(self));
        }
        match self.node_snapshot(space) {
            NodeSnapshot::Product { value_type, extractor, parameters } => {
                self.flatten_product(value_type, extractor, parameters, flattened);
            },
            NodeSnapshot::Union(members) => {
                let ghost start_len = flattened@.len();
                let mut i: usize = 0;
                while i < members.len()
                    invariant
                        self.evolves(*old(self)),
                        self.steps() <= old(self).steps(),
                        i <= members@.len(),
                        members@.len() >= 2,
                        self.ctx().member_list_ok(members@),
                        i > 0 ==> flattened@.len() > start_len,
                        flattened@.len() >= start_len,
                        start_len == old(flattened)@.len(),
                        forall|j: int| 0 <= j < flattened@.len() ==> self.ctx().valid_space(#[trigger] flattened@[j])
                            && !self.ctx().is_union(flattened@[j]) && flattened@[j]@ != 0,
                    decreases members@.len() - i,
                {
                    let member = members[i];
                    let ghost before = *self;
                    match self.node_snapshot(member) {
                        NodeSnapshot::Product { value_type, extractor, parameters } => {
                            self.flatten_product(value_type, extractor, parameters, flattened);
                            proof {
                                Self::lemma_evolves_trans(*self, before, *old(self));
                                self.ctx().lemma_member_list_extends(before.ctx(), members@);
                            }
                        },
                        _ => {
                            proof {
                                assert(1 <= members@[i as int]@ <= self.ctx().nodes().len());
                            }
                            flattened.push(member);
                        },
                    }
                    i = i + 1;
                }
            },
            _ => {
                flattened.push(space);
            },
        }
    }

    fn flatten_product(
        &mut self,
        value_type_key: TI::Key,
        extractor: EI::Key,
        parameters: Vec<Space<O::Type, O::Extractor>>,
        flattened: &mut Vec<Space<O::Type, O::Extractor>>,
    )
        requires
            old(self).wf(),
            old(self).ctx().type_interner().valid_key(value_type_key),
            old(self).ctx().extractor_interner().valid_key(extractor),
            forall|j: int| 0 <= j < parameters@.len() ==> old(self).ctx().valid_space(#[trigger] parameters@[j]),
            forall|j: int| 0 <= j < old(flattened)@.len() ==> old(self).ctx().valid_space(#[trigger] old(flattened)@[j])
                && !old(self).ctx().is_union(old(flattened)@[j]) && old(flattened)@[j]@ != 0,
        ensures
            final(self).evolves(*old(self)),
            final(flattened)@.len() > old(flattened)@.len(),
            forall|j: int| 0 <= j < final(flattened)@.len() ==> final(self).ctx().valid_space(#[trigger] final(flattened)@[j])
                && !final(self).ctx().is_union(final(flattened)@[j]) && final(flattened)@[j]@ != 0,
            exists|options: Seq<Seq<Space<O::Type, O::Extractor>>>|
                #![trigger combinations_of(options)]
                {
                    let products = combinations_of(options);
                    &&& options.len() == parameters@.len()
                    &&& forall|i: int| 0 <= i < options.len() ==> (#[trigger] options[i]).len() >= 1 && (parameters@[i]@ == 0
                        ==> options[i] == seq![parameters@[i]])
                    &&& final(self).steps() > 0 ==> forall|i: int|
                        0 <= i < options.len() && parameters@[i]@ != 0 ==> final(self).remembered_flattening(parameters@[i]) == Some(
                            spaces_view(#[trigger] options[i]),
                        )
                    &&& final(flattened)@.len() == old(flattened)@.len() + products.len()
                    &&& final(flattened)@.subrange(0, old(flattened)@.len() as int) == old(flattened)@
                    &&& forall|k: int|
                        0 <= k < products.len() ==> final(self).ctx().node(#[trigger] final(flattened)@[old(flattened)@.len() + k]) is Product
                            && product_parameters(final(self).ctx().node(final(flattened)@[old(flattened)@.len() + k])) == products[k]
                            && exists|ck: TI::Key, cx: EI::Key|
                            cloned::<TI::Key>(value_type_key, ck) && cloned::<EI::Key>(extractor, cx) && #[trigger] final(self).product_keys_are(
                                final(flattened)@[old(flattened)@.len() + k],
                                ck,
                                cx,
                            )
                },
        decreases old(self).steps(), 1nat,
    {
        proof {
            self.lemma_ticked(*old(self));
        }
        // One list of options per parameter, in parameter order.
        let mut combinations: Vec<Vec<Space<O::Type, O::Extractor>>> = Vec::new();
        combinations.push(Vec::new());
        let ghost mut chosen: Seq<Seq<Space<O::Type, O::Extractor>>> = Seq::empty();
        proof {
            assert(list_views(combinations@) =~= combinations_of(chosen));
        }
        let mut i: usize = 0;
        while i < parameters.len()
            invariant
                chosen.len() == i,
                list_views(combinations@) == combinations_of(chosen),
                forall|x: int| 0 <= x < chosen.len() ==> (#[trigger] chosen[x]).len() >= 1 && (parameters@[x]@ == 0
                    ==> chosen[x] == seq![parameters@[x]]),
                self.steps() > 0 ==> forall|x: int|
                    0 <= x < chosen.len() && parameters@[x]@ != 0 ==> self.remembered_flattening(parameters@[x]) == Some(
                        spaces_view(#[trigger] chosen[x]),
                    ),
                self.evolves(*old(self)),
                self.steps() <= old(self).steps(),
                i <= parameters@.len(),
                combinations@.len() >= 1,
                forall|j: int| 0 <= j < parameters@.len() ==> self.ctx().valid_space(#[trigger] parameters@[j]),
                forall|c: int, j: int| 0 <= c < combinations@.len() && 0 <= j < combinations@[c]@.len()
                    ==> self.ctx().valid_space(#[trigger] combinations@[c]@[j]),
                self.ctx().type_interner().valid_key(value_type_key),
                self.ctx().extractor_interner().valid_key(extractor),
                forall|j: int| 0 <= j < flattened@.len() ==> self.ctx().valid_space(#[trigger] flattened@[j])
                    && !self.ctx().is_union(flattened@[j]) && flattened@[j]@ != 0,
                flattened@ == old(flattened)@,
            decreases parameters@.len() - i,
        {
            let ghost before = *self;
            let options = self.flatten_space(parameters[i]);
            proof {
                Self::lemma_evolves_trans(*self, before, *old(self));
                if self.steps() > 0 {
                    assert forall|x: int| 0 <= x < chosen.len() && parameters@[x]@ != 0 implies self.remembered_flattening(parameters@[x])
                        == Some(spaces_view(#[trigger] chosen[x])) by {
                        assert(before.steps() > 0);
                        assert(before.remembered_flattening(parameters@[x]) == Some(spaces_view(chosen[x])));
                        self.lemma_flattening_kept(before, parameters@[x]);
                    }
                }
            }
            let mut extended: Vec<Vec<Space<O::Type, O::Extractor>>> = Vec::new();
            let ghost prefixes = list_views(combinations@);
            proof {
                assert(prefixes.take(0) =~= Seq::<Seq<Space<O::Type, O::Extractor>>>::empty());
                assert(list_views(extended@) =~= extend_each(prefixes.take(0), options@));
            }
            let mut c: usize = 0;
            while c < combinations.len()
                invariant
                    prefixes == list_views(combinations@),
                    list_views(extended@) == extend_each(prefixes.take(c as int), options@),
                    c <= combinations@.len(),
                    options@.len() >= 1,
                    c > 0 ==> extended@.len() >= 1,
                    forall|x: int| 0 <= x < options@.len() ==> self.ctx().valid_space(#[trigger] options@[x]),
                    forall|x: int, j: int| 0 <= x < combinations@.len() && 0 <= j < combinations@[x]@.len()
                        ==> self.ctx().valid_space(#[trigger] combinations@[x]@[j]),
                    forall|x: int, j: int| 0 <= x < extended@.len() && 0 <= j < extended@[x]@.len()
                        ==> self.ctx().valid_space(#[trigger] extended@[x]@[j]),
                decreases combinations@.len() - c,
            {
                let mut o: usize = 0;
                proof {
                    assert(list_views(extended@) =~= extend_each(prefixes.take(c as int), options@) + options@.take(0).map_values(
                        |option: Space<O::Type, O::Extractor>| prefixes[c as int].push(option),
                    ));
                }
                while o < options.len()
                    invariant
                        prefixes == list_views(combinations@),
                        list_views(extended@) == extend_each(prefixes.take(c as int), options@) + options@.take(o as int).map_values(
                            |option: Space<O::Type, O::Extractor>| prefixes[c as int].push(option),
                        ),
                        c < combinations@.len(),
                        o <= options@.len(),
                        options@.len() >= 1,
                        o > 0 ==> extended@.len() >= 1,
                        c > 0 ==> extended@.len() >= 1,
                        forall|x: int| 0 <= x < options@.len() ==> self.ctx().valid_space(#[trigger] options@[x]),
                        forall|x: int, j: int| 0 <= x < combinations@.len() && 0 <= j < combinations@[x]@.len()
                            ==> self.ctx().valid_space(#[trigger] combinations@[x]@[j]),
                        forall|x: int, j: int| 0 <= x < extended@.len() && 0 <= j < extended@[x]@.len()
                            ==> self.ctx().valid_space(#[trigger] extended@[x]@[j]),
                    decreases options@.len() - o,
                {
                    let mut combination = Self::copy_spaces(&combinations[c]);
                    combination.push(options[o]);
                    proof {
                        assert forall|j: int| 0 <= j < combination@.len() implies self.ctx().valid_space(#[trigger] combination@[j]) by {
                            if j < combinations@[c as int]@.len() {
                                assert(self.ctx().valid_space(combinations@[c as int]@[j]));
                            }
                        }
                    }
                    let ghost previous = extended@;
                    extended.push(combination);
                    proof {
                        let f = |option: Space<O::Type, O::Extractor>| prefixes[c as int].push(option);
                        assert(combination@ == prefixes[c as int].push(options@[o as int]));
                        assert(list_views(extended@) =~= list_views(previous).push(combination@));
                        assert(options@.take(o + 1).map_values(f) =~= options@.take(o as int).map_values(f).push(f(options@[o as int])));
                        assert(list_views(extended@) =~= extend_each(prefixes.take(c as int), options@) + options@.take(o + 1).map_values(f));
                    }
                    o = o + 1;
                }
                proof {
                    let f = |option: Space<O::Type, O::Extractor>| prefixes[c as int].push(option);
                    assert(options@.take(options@.len() as int) =~= options@);
                    assert(prefixes.take(c + 1).drop_last() =~= prefixes.take(c as int));
                    assert(prefixes.take(c + 1).last() == prefixes[c as int]);
                    assert(extend_each(prefixes.take(c + 1), options@) == extend_each(prefixes.take(c as int), options@)
                        + options@.map_values(f));
                }
                c = c + 1;
            }
            proof {
                assert(prefixes.take(combinations@.len() as int) =~= prefixes);
                let next = chosen.push(options@);
                assert(next.drop_last() =~= chosen);
                if self.steps() > 0 {
                    assert forall|x: int| 0 <= x < next.len() && parameters@[x]@ != 0 implies self.remembered_flattening(parameters@[x])
                        == Some(spaces_view(#[trigger] next[x])) by {
                        if x < chosen.len() {
                            assert(next[x] == chosen[x]);
                        }
                    }
                }
                assert(combinations_of(next) == extend_each(combinations_of(chosen), options@));
                chosen = next;
            }
            combinations = extended;
            i = i + 1;
        }
        let ghost start_len = flattened@.len();
        let ghost products = list_views(combinations@);
        let mut c: usize = 0;
        while c < combinations.len()
            invariant
                products == list_views(combinations@),
                flattened@.len() == start_len + c,
                flattened@.subrange(0, start_len as int) == old(flattened)@,
                forall|k: int|
                    0 <= k < c ==> self.ctx().node(#[trigger] flattened@[start_len + k]) is Product && product_parameters(
                        self.ctx().node(flattened@[start_len + k]),
                    ) == products[k] && exists|ck: TI::Key, cx: EI::Key|
                        cloned::<TI::Key>(value_type_key, ck) && cloned::<EI::Key>(extractor, cx) && #[trigger] self.product_keys_are(
                            flattened@[start_len + k],
                            ck,
                            cx,
                        ),
                self.evolves(*old(self)),
                self.steps() <= old(self).steps(),
                c <= combinations@.len(),
                combinations@.len() >= 1,
                forall|x: int, j: int| 0 <= x < combinations@.len() && 0 <= j < combinations@[x]@.len()
                    ==> self.ctx().valid_space(#[trigger] combinations@[x]@[j]),
                self.ctx().type_interner().valid_key(value_type_key),
                self.ctx().extractor_interner().valid_key(extractor),
                c > 0 ==> flattened@.len() > start_len,
                flattened@.len() >= start_len,
                start_len == old(flattened)@.len(),
                chosen.len() == parameters@.len(),
                self.steps() > 0 ==> forall|x: int|
                    0 <= x < chosen.len() && parameters@[x]@ != 0 ==> self.remembered_flattening(parameters@[x]) == Some(
                        spaces_view(#[trigger] chosen[x]),
                    ),
                forall|j: int| 0 <= j < flattened@.len() ==> self.ctx().valid_space(#[trigger] flattened@[j])
                    && !self.ctx().is_union(flattened@[j]) && flattened@[j]@ != 0,
            decreases combinations@.len() - c,
        {
            let value_type_copy = self.clone_type_key(&value_type_key);
            let extractor_copy = self.clone_extractor_key(&extractor);
            let combination = Self::copy_spaces(&combinations[c]);
            let ghost before = *self;
            let product = self.make_product_space_from_keys(value_type_copy, extractor_copy, combination);
            proof {
                Self::lemma_evolves_trans(*self, before, *old(self));
                assert forall|k: int| 0 <= k < c implies self.ctx().node(#[trigger] flattened@[start_len + k]) is Product
                    && product_parameters(self.ctx().node(flattened@[start_len + k])) == products[k] && exists|ck: TI::Key, cx: EI::Key|
                    cloned::<TI::Key>(value_type_key, ck) && cloned::<EI::Key>(extractor, cx) && #[trigger] self.product_keys_are(
                        flattened@[start_len + k],
                        ck,
                        cx,
                    ) by {
                    self.lemma_node_kept(before, flattened@[start_len + k]);
                    let (ck, cx) = choose|ck: TI::Key, cx: EI::Key|
                        cloned::<TI::Key>(value_type_key, ck) && cloned::<EI::Key>(extractor, cx) && #[trigger] before.product_keys_are(
                            flattened@[start_len + k],
                            ck,
                            cx,
                        );
                    assert(self.product_keys_are(flattened@[start_len + k], ck, cx));
                }
                assert(products[c as int] == combinations@[c as int]@);
                assert(self.product_keys_are(product, value_type_copy, extractor_copy));
            }
            let ghost previous = flattened@;
            flattened.push(product);
            proof {
                assert(flattened@.subrange(0, start_len as int) =~= previous.subrange(0, start_len as int));
                assert(flattened@[start_len + c] == product);
                assert forall|k: int| 0 <= k < c + 1 implies self.ctx().node(#[trigger] flattened@[start_len + k]) is Product
                    && product_parameters(self.ctx().node(flattened@[start_len + k])) == products[k] && exists|ck: TI::Key, cx: EI::Key|
                    cloned::<TI::Key>(value_type_key, ck) && cloned::<EI::Key>(extractor, cx) && #[trigger] self.product_keys_are(
                        flattened@[start_len + k],
                        ck,
                        cx,
                    ) by {
                    if k < c {
                        assert(flattened@[start_len + k] == previous[start_len + k]);
                    } else {
                        assert(cloned::<TI::Key>(value_type_key, value_type_copy) && cloned::<EI::Key>(extractor, extractor_copy));
                        assert(self.product_keys_are(flattened@[start_len + k], value_type_copy, extractor_copy));
                    }
                }
            }
            c = c + 1;
        }
        proof {
            assert(products == combinations_of(chosen));
        }
    }

    // ----- intersection -----
    /// Intersects two spaces.
    pub fn intersect(&mut self, left_space: Space<O::Type, O::Extractor>, right_space: Space<O::Type, O::Extractor>) -> (intersection: Space<O::Type, O::Extractor>)
        requires
            old(self).wf(),
            old(self).ctx().valid_space(left_space),
            old(self).ctx().valid_space(right_space),
        ensures
            final(self).evolves(*old(self)),
            final(self).ctx().valid_space(intersection),
            left_space@ == 0 || right_space@ == 0 ==> intersection@ == 0,
            left_space@ == right_space@ && left_space@ != 0 ==> intersection == left_space,
            final(self).steps() > 0 ==> final(self).answered_intersection(left_space, right_space) == Some(intersection@),
            final(self).steps() > 0 && left_space@ != 0 && right_space@ != 0 && left_space@ != right_space@
                ==> final(self).intersection_case_ok(left_space, right_space, intersection),
        decreases old(self).steps(), 0nat,
    {
        proof {
            self.lemma_ticked(*old(self));
        }
        if left_space.is_empty() || right_space.is_empty() {
            return self.context.empty();
        }
        if left_space.raw_id() == right_space.raw_id() {
            return left_space;
        }
        let key = (left_space.raw_id(), right_space.raw_id());
        proof {
            left_space.lemma_with_id(0);
            right_space.lemma_with_id(0);
        }
        if let Some(id) = space_pair_map_get(&self.caches.memo.intersection_results, key) {
            let remembered = Space::from_raw_id(id);
            proof {
                assert(space_pair_entries(self.caches.memo.intersection_results).contains_key(key));
                remembered.lemma_with_id(0);
            }
            return remembered;
        }
        if !self.tick() {
            return left_space;
        }
        proof {
            self.lemma_ticked(*old(self));
        }
        let ghost before = *self;
        let intersection = self.compute_intersection(left_space, right_space);
        proof {
            Self::lemma_evolves_trans(*self, before, *old(self));
        }
        // A nested step may have computed the same intersection already; that
        // intersection stands.
        if let Some(id) = space_pair_map_get(&self.caches.memo.intersection_results, key) {
            let remembered = Space::from_raw_id(id);
            proof {
                assert(space_pair_entries(self.caches.memo.intersection_results).contains_key(key));
                remembered.lemma_with_id(0);
            }
            return remembered;
        }
        let ghost before_insert = *self;
        space_pair_map_insert(&mut self.caches.memo.intersection_results, key, intersection.raw_id());
        proof {
            let intersections = space_pair_entries(self.caches.memo.intersection_results);
            let previous = space_pair_entries(before_insert.caches.memo.intersection_results);
            assert(self.keeps_intersections(before_insert));
            assert(self.keeps_simplifications(before_insert));
            intersection.lemma_with_id(0);
            assert forall|k: (usize, usize)| #[trigger] intersections.contains_key(k) implies 0 < k.0 <= self.ctx().nodes().len()
                && 0 < k.1 <= self.ctx().nodes().len() && k.0 != k.1 by {
                if k != key {
                    assert(previous.contains_key(k));
                }
            }
            if self.steps() > 0 {
                assert forall|k: (usize, usize)| #[trigger] intersections.contains_key(k) implies self.intersection_case_ok(
                    Space::with_id(k.0 as nat),
                    Space::with_id(k.1 as nat),
                    Space::with_id(intersections[k] as nat),
                ) by {
                    let l = Space::<O::Type, O::Extractor>::with_id(k.0 as nat);
                    let r = Space::<O::Type, O::Extractor>::with_id(k.1 as nat);
                    l.lemma_with_id(k.0 as nat);
                    r.lemma_with_id(k.1 as nat);
                    if k == key {
                        Space::lemma_same_id(l, left_space);
                        Space::lemma_same_id(r, right_space);
                        self.lemma_intersection_case_extends(before_insert, left_space, right_space, intersection);
                    } else {
                        assert(previous.contains_key(k));
                        let v = Space::<O::Type, O::Extractor>::with_id(intersections[k] as nat);
                        v.lemma_with_id(intersections[k] as nat);
                        self.lemma_intersection_case_extends(before_insert, l, r, v);
                    }
                }
            }
            assert(self.intersections_ok());
            self.lemma_memo_changed(before_insert);
        }
        intersection
    }

    /// Intersects every member with `other` and unions the results.
    fn intersect_members(&mut self, members: Vec<Space<O::Type, O::Extractor>>, other: Space<O::Type, O::Extractor>, members_on_left: bool) -> (union: Space<O::Type, O::Extractor>)
        requires
            old(self).wf(),
            forall|j: int| 0 <= j < members@.len() ==> old(self).ctx().valid_space(#[trigger] members@[j]),
            old(self).ctx().valid_space(other),
        ensures
            final(self).evolves(*old(self)),
            final(self).ctx().valid_space(union),
            members@.len() == 0 || other@ == 0 ==> union@ == 0,
            final(self).steps() > 0 ==> final(self).members_intersect_to(members@, other, members_on_left, union),
        decreases old(self).steps(), 1nat,
    {
        proof {
            self.lemma_ticked(*old(self));
        }
        let mut mapped: Vec<Space<O::Type, O::Extractor>> = Vec::new();
        let mut i: usize = 0;
        while i < members.len()
            invariant
                self.evolves(*old(self)),
                self.steps() <= old(self).steps(),
                i <= members@.len(),
                mapped@.len() == i,
                other@ == 0 ==> forall|j: int| 0 <= j < mapped@.len() ==> (#[trigger] mapped@[j])@ == 0,
                forall|j: int| 0 <= j < members@.len() ==> self.ctx().valid_space(#[trigger] members@[j]),
                forall|j: int| 0 <= j < mapped@.len() ==> self.ctx().valid_space(#[trigger] mapped@[j]),
                self.ctx().valid_space(other),
                self.steps() > 0 ==> forall|j: int|
                    0 <= j < i ==> #[trigger] self.member_intersection(members@[j], other, members_on_left) == Some(mapped@[j]@),
            decreases members@.len() - i,
        {
            let ghost before = *self;
            let intersection = if members_on_left {
                self.intersect(members[i], other)
            } else {
                self.intersect(other, members[i])
            };
            proof {
                Self::lemma_evolves_trans(*self, before, *old(self));
                if self.steps() > 0 {
                    assert forall|j: int| 0 <= j < i implies #[trigger] self.member_intersection(members@[j], other, members_on_left)
                        == Some(mapped@[j]@) by {
                        assert(before.member_intersection(members@[j], other, members_on_left) == Some(mapped@[j]@));
                        if members_on_left {
                            self.lemma_intersection_answer_kept(before, members@[j], other);
                        } else {
                            self.lemma_intersection_answer_kept(before, other, members@[j]);
                        }
                    }
                    assert(self.member_intersection(members@[i as int], other, members_on_left) == Some(intersection@));
                }
            }
            mapped.push(intersection);
            i = i + 1;
        }
        let ghost before = *self;
        proof {
            if other@ == 0 {
                before.ctx().lemma_union_member_list_of_empties(mapped@);
            }
        }
        let ghost mapped_list = mapped@;
        let union = self.build_union(mapped);
        proof {
            Self::lemma_evolves_trans(*self, before, *old(self));
            if self.steps() > 0 {
                assert forall|j: int| 0 <= j < members@.len() implies self.ctx().valid_space(#[trigger] mapped_list[j])
                    && self.member_intersection(members@[j], other, members_on_left) == Some(mapped_list[j]@) by {
                    assert(before.ctx().valid_space(mapped_list[j]));
                    assert(before.member_intersection(members@[j], other, members_on_left) == Some(mapped_list[j]@));
                    if members_on_left {
                        self.lemma_intersection_answer_kept(before, members@[j], other);
                    } else {
                        self.lemma_intersection_answer_kept(before, other, members@[j]);
                    }
                }
                self.ctx().lemma_union_member_list_extends(before.ctx(), mapped_list);
                assert(self.ctx().is_union_of(union, self.ctx().union_member_list(mapped_list)));
            }
        }
        union
    }

    #[verifier::loop_isolation(false)]
    fn compute_intersection(&mut self, left_space: Space<O::Type, O::Extractor>, right_space: Space<O::Type, O::Extractor>) -> (intersection: Space<O::Type, O::Extractor>)
        requires
            old(self).wf(),
            old(self).ctx().valid_space(left_space),
            old(self).ctx().valid_space(right_space),
        ensures
            final(self).evolves(*old(self)),
            final(self).ctx().valid_space(intersection),
            left_space@ == 0 || right_space@ == 0 ==> intersection@ == 0,
            left_space@ != 0 && right_space@ != 0 ==> ((old(self).ctx().node(left_space), old(self).ctx().node(right_space)) matches (
                SpaceNode::Type { value_type: kl, .. },
                SpaceNode::Type { value_type: kr, .. },
            ) ==> intersection == left_space || exists|cl: TI::Key, cr: TI::Key|
                #![trigger cloned::<TI::Key>(kl, cl), cloned::<TI::Key>(kr, cr)]
                cloned::<TI::Key>(kl, cl) && cloned::<TI::Key>(kr, cr) && call_ensures(
                    O::is_subtype,
                    (&old(self).ops(), &old(self).ctx().type_interner().item(cl), &old(self).ctx().type_interner().item(cr)),
                    false,
                )),
            left_space@ != 0 && right_space@ != 0 ==> ((old(self).ctx().node(left_space), old(self).ctx().node(right_space)) matches (
                SpaceNode::Product { value_type: kl, .. },
                SpaceNode::Type { value_type: kr, .. },
            ) ==> intersection == left_space || exists|cl: TI::Key, cr: TI::Key|
                #![trigger cloned::<TI::Key>(kl, cl), cloned::<TI::Key>(kr, cr)]
                cloned::<TI::Key>(kl, cl) && cloned::<TI::Key>(kr, cr) && call_ensures(
                    O::is_subtype,
                    (&old(self).ops(), &old(self).ctx().type_interner().item(cl), &old(self).ctx().type_interner().item(cr)),
                    false,
                )),
            left_space@ != 0 && right_space@ != 0 ==> ((old(self).ctx().node(left_space), old(self).ctx().node(right_space)) matches (
                SpaceNode::Type { value_type: kl, .. },
                SpaceNode::Product { value_type: kr, .. },
            ) ==> intersection == right_space || exists|cl: TI::Key, cr: TI::Key|
                #![trigger cloned::<TI::Key>(kl, cl), cloned::<TI::Key>(kr, cr)]
                cloned::<TI::Key>(kl, cl) && cloned::<TI::Key>(kr, cr) && call_ensures(
                    O::is_subtype,
                    (&old(self).ops(), &old(self).ctx().type_interner().item(cr), &old(self).ctx().type_interner().item(cl)),
                    false,
                )),
            left_space@ != 0 && right_space@ != 0 && left_space@ != right_space@ && final(self).steps() > 0
                ==> final(self).intersection_case_ok(left_space, right_space, intersection),
        decreases old(self).steps(), 2nat,
    {
        proof {
            self.lemma_ticked(*old(self));
        }
        let left_node = self.node_snapshot(left_space);
        let right_node = self.node_snapshot(right_space);
        match (left_node, right_node) {
            (NodeSnapshot::Empty, _) | (_, NodeSnapshot::Empty) => self.context.empty(),
            (_, NodeSnapshot::Union(members)) => {
                let union = self.intersect_members(members, left_space, false);
                proof {
                    self.lemma_node_kept(*old(self), left_space);
                    self.lemma_node_kept(*old(self), right_space);
                }
                union
            },
            (NodeSnapshot::Union(members), _) => {
                let union = self.intersect_members(members, right_space, true);
                proof {
                    self.lemma_node_kept(*old(self), left_space);
                    self.lemma_node_kept(*old(self), right_space);
                }
                union
            },
            (NodeSnapshot::Type { value_type: left_type, .. }, NodeSnapshot::Type { value_type: right_type, .. }) => {
                let ghost kl = self.ctx().node(left_space)->Type_value_type;
                let ghost kr = self.ctx().node(right_space)->Type_value_type;
                let left_is_subtype = self.is_subtype_key(&left_type, &right_type);
                proof {
                    assert(self.subtype_answered(kl, kr, left_is_subtype));
                }
                if left_is_subtype {
                    left_space
                } else {
                    let right_is_subtype = self.is_subtype_key(&right_type, &left_type);
                    proof {
                        assert(self.subtype_answered(kr, kl, right_is_subtype));
                    }
                    if right_is_subtype {
                        right_space
                    } else {
                        let ghost s1 = *self;
                        let intersection = self.build_atomic_intersection(&left_type, &right_type, left_space);
                        proof {
                            s1.lemma_atomic_witness(kl, kr, left_type, right_type, intersection);
                            self.lemma_atomic_answered_kept(s1, kl, kr, intersection);
                            self.lemma_subtype_answered_kept_all(s1, kl, kr);
                            self.lemma_node_kept(*old(self), left_space);
                            self.lemma_node_kept(*old(self), right_space);
                        }
                        intersection
                    }
                }
            },
            (NodeSnapshot::Type { value_type: left_type, .. }, NodeSnapshot::Product { value_type: right_type, .. }) => {
                let ghost kl = self.ctx().node(left_space)->Type_value_type;
                let ghost kr = self.ctx().node(right_space)->Product_value_type;
                let right_is_subtype = self.is_subtype_key(&right_type, &left_type);
                proof {
                    assert(self.subtype_answered(kr, kl, right_is_subtype));
                }
                if right_is_subtype {
                    right_space
                } else {
                    let left_is_subtype = self.is_subtype_key(&left_type, &right_type);
                    proof {
                        assert(self.subtype_answered(kl, kr, left_is_subtype));
                    }
                    if left_is_subtype {
                        left_space
                    } else {
                        let ghost s1 = *self;
                        let intersection = self.build_atomic_intersection(&left_type, &right_type, right_space);
                        proof {
                            s1.lemma_atomic_witness(kl, kr, left_type, right_type, intersection);
                            self.lemma_atomic_answered_kept(s1, kl, kr, intersection);
                            self.lemma_subtype_answered_kept_all(s1, kl, kr);
                            self.lemma_node_kept(*old(self), left_space);
                            self.lemma_node_kept(*old(self), right_space);
                        }
                        intersection
                    }
                }
            },
            (NodeSnapshot::Product { value_type: left_type, .. }, NodeSnapshot::Type { value_type: right_type, .. }) => {
                let ghost kl = self.ctx().node(left_space)->Product_value_type;
                let ghost kr = self.ctx().node(right_space)->Type_value_type;
                let left_is_subtype = self.is_subtype_key(&left_type, &right_type);
                proof {
                    assert(self.subtype_answered(kl, kr, left_is_subtype));
                }
                if left_is_subtype {
                    return left_space;
                }
                let right_is_subtype = self.is_subtype_key(&right_type, &left_type);
                proof {
                    assert(self.subtype_answered(kr, kl, right_is_subtype));
                }
                if right_is_subtype {
                    left_space
                } else {
                    let ghost s1 = *self;
                    let intersection = self.build_atomic_intersection(&left_type, &right_type, left_space);
                    proof {
                        s1.lemma_atomic_witness(kl, kr, left_type, right_type, intersection);
                        self.lemma_atomic_answered_kept(s1, kl, kr, intersection);
                        self.lemma_subtype_answered_kept_all(s1, kl, kr);
                        self.lemma_node_kept(*old(self), left_space);
                        self.lemma_node_kept(*old(self), right_space);
                    }
                    intersection
                }
            },
            (
                NodeSnapshot::Product { value_type, extractor, parameters: left_parameters },
                NodeSnapshot::Product { value_type: right_value_type, extractor: right_extractor, parameters: right_parameters },
            ) => {
                if !self.same_product_shape(&extractor, &right_extractor, left_parameters.len(), right_parameters.len()) {
                    let ghost kl = self.ctx().node(left_space)->Product_value_type;
                    let ghost kr = self.ctx().node(right_space)->Product_value_type;
                    let ghost s1 = *self;
                    let intersection = self.build_atomic_intersection(&value_type, &right_value_type, left_space);
                    proof {
                        s1.lemma_atomic_witness(kl, kr, value_type, right_value_type, intersection);
                        self.lemma_atomic_answered_kept(s1, kl, kr, intersection);
                        self.lemma_node_kept(*old(self), left_space);
                        self.lemma_node_kept(*old(self), right_space);
                        assert(cloned::<EI::Key>(self.ctx().node(left_space)->Product_extractor, extractor));
                        assert(cloned::<EI::Key>(self.ctx().node(right_space)->Product_extractor, right_extractor));
                        assert(self.ctx().extractor_interner().item(extractor) == s1.ctx().extractor_interner().item(extractor));
                        assert(self.ctx().extractor_interner().item(right_extractor) == s1.ctx().extractor_interner().item(right_extractor));
                    }
                    return intersection;
                }
                let mut intersected_parameters: Vec<Space<O::Type, O::Extractor>> = Vec::new();
                let mut i: usize = 0;
                while i < left_parameters.len()
                    invariant
                        self.evolves(*old(self)),
                        self.steps() <= old(self).steps(),
                        i <= left_parameters@.len(),
                        left_parameters@.len() == right_parameters@.len(),
                        forall|j: int| 0 <= j < left_parameters@.len() ==> self.ctx().valid_space(#[trigger] left_parameters@[j]),
                        forall|j: int| 0 <= j < right_parameters@.len() ==> self.ctx().valid_space(#[trigger] right_parameters@[j]),
                        forall|j: int| 0 <= j < intersected_parameters@.len() ==> self.ctx().valid_space(#[trigger] intersected_parameters@[j]),
                        self.ctx().type_interner().valid_key(value_type),
                        self.ctx().extractor_interner().valid_key(extractor),
                        intersected_parameters@.len() == i,
                        self.steps() > 0 ==> forall|j: int|
                            0 <= j < i ==> #[trigger] self.parameter_intersection(left_parameters@[j], right_parameters@[j])
                                == Some(intersected_parameters@[j]@),
                    decreases left_parameters@.len() - i,
                {
                    let ghost s1 = *self;
                    let intersection = self.intersect(left_parameters[i], right_parameters[i]);
                    let ghost s2 = *self;
                    proof {
                        Self::lemma_evolves_trans(s2, s1, *old(self));
                    }
                    let parameter = self.simplify(intersection);
                    proof {
                        Self::lemma_evolves_trans(*self, s2, *old(self));
                        Self::lemma_evolves_trans(*self, s2, s1);
                        intersection.lemma_with_id(0);
                        if self.steps() > 0 {
                            assert forall|j: int| 0 <= j < i implies #[trigger] self.parameter_intersection(left_parameters@[j], right_parameters@[j])
                                == Some(intersected_parameters@[j]@) by {
                                self.lemma_parameter_intersection_kept(s1, left_parameters@[j], right_parameters@[j]);
                            }
                            self.lemma_intersection_answer_kept(s2, left_parameters@[i as int], right_parameters@[i as int]);
                            assert(self.parameter_intersection(left_parameters@[i as int], right_parameters@[i as int]) == Some(parameter@));
                        }
                    }
                    if parameter.is_empty() {
                        let empty = self.context.empty();
                        proof {
                            self.lemma_node_kept(*old(self), left_space);
                            self.lemma_node_kept(*old(self), right_space);
                        }
                        return empty;
                    }
                    intersected_parameters.push(parameter);
                    i = i + 1;
                }
                let ghost before = *self;
                let ghost parameters_list = intersected_parameters@;
                let product = self.make_product_space_from_keys(value_type, extractor, intersected_parameters);
                proof {
                    Self::lemma_evolves_trans(*self, before, *old(self));
                    self.lemma_node_kept(*old(self), left_space);
                    self.lemma_node_kept(*old(self), right_space);
                    if self.steps() > 0 {
                        assert forall|j: int| 0 <= j < left_parameters@.len() implies #[trigger] self.parameter_intersection(left_parameters@[j], right_parameters@[j])
                            == Some(product_parameters(self.ctx().node(product))[j]@) by {
                            self.lemma_parameter_intersection_kept(before, left_parameters@[j], right_parameters@[j]);
                            assert(product_parameters(self.ctx().node(product))[j] == parameters_list[j]);
                        }
                    }
                }
                product
            },
        }
    }

    /// The space of the atomic intersection of two types, shaped like
    /// `preferred_space`.
    fn build_atomic_intersection(&mut self, left: &TI::Key, right: &TI::Key, preferred_space: Space<O::Type, O::Extractor>) -> (intersection: Space<O::Type, O::Extractor>)
        requires
            old(self).wf(),
            old(self).ctx().type_interner().valid_key(*left),
            old(self).ctx().type_interner().valid_key(*right),
            old(self).ctx().valid_space(preferred_space),
            preferred_space@ != 0,
            !(old(self).ctx().node(preferred_space) is Union),
        ensures
            final(self).evolves(*old(self)),
            final(self).steps() == old(self).steps(),
            final(self).ctx().valid_space(intersection),
            exists|answer: AtomicIntersection<O::Type>|
                #[trigger] call_ensures(
                    O::intersect_atomic_types,
                    (&old(self).ops(), &old(self).ctx().type_interner().item(*left), &old(self).ctx().type_interner().item(*right)),
                    answer,
                ) && (answer is Empty <==> intersection@ == 0),
            intersection@ != 0 ==> (final(self).ctx().node(intersection) is Type <==> old(self).ctx().node(preferred_space) is Type),
            intersection@ != 0 && old(self).ctx().node(preferred_space) is Product ==> final(self).ctx().node(intersection) is Product
                && product_parameters(final(self).ctx().node(intersection)) == product_parameters(old(self).ctx().node(preferred_space)),
    {
        proof {
            self.lemma_ticked(*old(self));
        }
        let answer = self.intersect_atomic_type_keys(left, right);
        let ghost asked = answer;
        match answer {
            AtomicIntersection::Empty => self.context.empty(),
            AtomicIntersection::Type(intersection_type) => {
                let ghost s1 = *self;
                let intersection_type = self.intern_type_value(intersection_type);
                let ghost s2 = *self;
                match self.node_snapshot(preferred_space) {
                    NodeSnapshot::Type { introduced_by_decomposition, .. } => {
                        let space = self.make_type_space_from_key(intersection_type, introduced_by_decomposition);
                        proof {
                            Self::lemma_evolves_trans(*self, s2, *old(self));
                        }
                        space
                    },
                    NodeSnapshot::Product { extractor, parameters, .. } => {
                        let space = self.make_product_space_from_keys(intersection_type, extractor, parameters);
                        proof {
                            Self::lemma_evolves_trans(*self, s2, *old(self));
                        }
                        space
                    },
                    _ => {
                        proof {
                            assert(s2.ctx().node(preferred_space) == old(self).ctx().node(preferred_space));
                            assert(false);
                        }
                        self.context.empty()
                    },
                }
            },
        }
    }

    fn is_decomposable(&mut self, value_type_key: &TI::Key) -> (decomposable: bool)
        requires
            old(self).wf(),
            old(self).ctx().type_interner().valid_key(*value_type_key),
        ensures
            final(self).evolves(*old(self)),
            final(self).steps() == old(self).steps(),
            TI::Key::obeys_eq_spec() ==> exists|decomposition: Decomposition<TI::Key>|
                #[trigger] final(self).decomposes_as(*value_type_key, decomposition)
                    && decomposable == !(decomposition is NotDecomposable),
    {
        let decomposition = self.decomposition_for_type_key(value_type_key);
        decomposition.is_decomposable()
    }

    fn type_key_is_uninhabited(&mut self, value_type_key: &TI::Key) -> (uninhabited: bool)
        requires
            old(self).wf(),
            old(self).ctx().type_interner().valid_key(*value_type_key),
        ensures
            final(self).evolves(*old(self)),
            final(self).steps() == old(self).steps(),
            TI::Key::obeys_eq_spec() ==> exists|decomposition: Decomposition<TI::Key>|
                #[trigger] final(self).decomposes_as(*value_type_key, decomposition)
                    && uninhabited == (decomposition is Empty),
            final(self).caches.memo == old(self).caches.memo,
    {
        match self.decomposition_for_type_key(value_type_key) {
            Decomposition::Empty => true,
            _ => false,
        }
    }
}

} // verus!
