use vstd::prelude::*;
use vstd::string::*;

use crate::dsl::model::{build_error, Model};
use crate::dsl::resolve::{
    find_constructor, lemma_find_constructor, lemma_variant_fields, lemma_wf_types, variant_fields, variant_of, wf_type, wf_types,
};
use crate::dsl::syntax::{
    decimal, decimal_string, error_at, lemma_patterns_view, pattern_view, patterns_view, DslError, ErrorView, Pattern,
    PatternView, Program,
};
use crate::dsl::types::{
    copy_runtime_type, lemma_runtime_types_view, runtime_type_view, runtime_types_view, RuntimeExtractor, RuntimeType,
    RuntimeTypeView,
};
use crate::interner::{InternedId, SpaceInterner};
use crate::match_input::{MatchArm, MatchInput};
use crate::space::{Space, SpaceContext, SpaceNode};

verus! {

/// The context in which the language's patterns become spaces.
pub type DslContext = SpaceContext<RuntimeType, RuntimeExtractor>;

/// A space of the language's patterns.
pub type DslSpace = Space<RuntimeType, RuntimeExtractor>;

/// The message for a constructor pattern with the wrong number of arguments.
pub open spec fn arguments_message(name: Seq<char>, expected: nat, got: nat) -> Seq<char> {
    "Constructor `"@ + name + "` expects "@ + decimal(expected) + " argument(s), got "@ + decimal(got)
}

/// The first error in a pattern matched against a value of type `expected`.
pub open spec fn lower_error(types: Seq<crate::dsl::syntax::TypeDeclView>, pattern: PatternView, expected: RuntimeTypeView) -> Option<
    ErrorView,
>
    decreases pattern,
{
    match pattern {
        PatternView::Wildcard { .. } => None,
        PatternView::Or { alternatives, .. } => lower_alternatives_error(types, alternatives, expected),
        PatternView::Constructor { name, args, span } => match find_constructor(types, expected, name, span) {
            Err(e) => Some(e),
            Ok((ti, ci, adt_args)) => match variant_fields(types, ti, ci, adt_args) {
                Err(e) => Some(e),
                Ok(fields) => if fields.len() != args.len() {
                    Some(error_at(arguments_message(name, fields.len(), args.len()), span))
                } else {
                    lower_arguments_error(types, args, fields)
                },
            },
        },
    }
}

/// The first error among alternatives, each matched against `expected`.
pub open spec fn lower_alternatives_error(
    types: Seq<crate::dsl::syntax::TypeDeclView>,
    alternatives: Seq<PatternView>,
    expected: RuntimeTypeView,
) -> Option<ErrorView>
    decreases alternatives,
{
    if alternatives.len() == 0 {
        None
    } else {
        match lower_alternatives_error(types, alternatives.subrange(0, alternatives.len() - 1), expected) {
            Some(e) => Some(e),
            None => lower_error(types, alternatives[alternatives.len() - 1], expected),
        }
    }
}

/// The first error among argument patterns, each matched against the field
/// type at its position.
pub open spec fn lower_arguments_error(
    types: Seq<crate::dsl::syntax::TypeDeclView>,
    args: Seq<PatternView>,
    fields: Seq<RuntimeTypeView>,
) -> Option<ErrorView>
    decreases args,
{
    if args.len() == 0 {
        None
    } else {
        match lower_arguments_error(types, args.subrange(0, args.len() - 1), fields) {
            Some(e) => Some(e),
            None => lower_error(types, args[args.len() - 1], fields[args.len() - 1]),
        }
    }
}

/// `space` is the space of every value of type `t`, open to decomposition.
pub open spec fn names_type(ctx: DslContext, space: DslSpace, t: RuntimeTypeView) -> bool {
    &&& space@ != 0
    &&& ctx.valid_space(space)
    &&& ctx.node(space) matches SpaceNode::Type { value_type: k, introduced_by_decomposition: d } && d
        && ctx.type_interner().valid_key(k) && runtime_type_view(ctx.type_interner().item(k)) == t
}

/// `space` is the product of type `t`, extractor `extractor` and the
/// parameter spaces `parameters`.
pub open spec fn names_product(
    ctx: DslContext,
    space: DslSpace,
    t: RuntimeTypeView,
    extractor: (Seq<char>, Seq<char>),
    parameters: Seq<DslSpace>,
) -> bool {
    &&& space@ != 0
    &&& ctx.valid_space(space)
    &&& ctx.node(space) matches SpaceNode::Product { value_type: k, extractor: x, parameters: ps } && ps@
        == parameters && ctx.type_interner().valid_key(k) && runtime_type_view(ctx.type_interner().item(k)) == t
        && ctx.extractor_interner().valid_key(x) && ctx.extractor_interner().item(x).view() == extractor
}

/// How the spaces of a pattern's parts were found: the spaces of its
/// alternatives, or of its arguments, each with how it was found in turn.
pub enum LoweringTree {
    Node { spaces: Seq<DslSpace>, children: Seq<LoweringTree> },
}

impl LoweringTree {
    pub open spec fn spaces(self) -> Seq<DslSpace> {
        let LoweringTree::Node { spaces, .. } = self;
        spaces
    }

    pub open spec fn children(self) -> Seq<LoweringTree> {
        let LoweringTree::Node { children, .. } = self;
        children
    }
}

/// `space` is what a pattern matched against a value of type `expected`
/// stands for, with the spaces of its parts as `tree` gives them: a wildcard
/// the whole type, an or-pattern the union of its alternatives, a constructor
/// without fields its constructor type, and one with fields the product of its
/// arguments' spaces.
pub open spec fn lowered(
    ctx: DslContext,
    types: Seq<crate::dsl::syntax::TypeDeclView>,
    pattern: PatternView,
    expected: RuntimeTypeView,
    space: DslSpace,
    tree: LoweringTree,
) -> bool
    decreases pattern,
{
    match pattern {
        PatternView::Wildcard { .. } => names_type(ctx, space, expected),
        PatternView::Or { alternatives, .. } => {
            &&& lowered_alternatives(ctx, types, alternatives, expected, tree.spaces(), tree.children())
            &&& ctx.is_union_of(space, ctx.union_member_list(tree.spaces()))
        },
        PatternView::Constructor { name, args, span } => match find_constructor(types, expected, name, span) {
            Err(_) => false,
            Ok((ti, ci, adt_args)) => match variant_fields(types, ti, ci, adt_args) {
                Err(_) => false,
                Ok(fields) => {
                    let variant = variant_of(types, ti, ci, adt_args, fields);
                    if fields.len() == 0 {
                        names_type(ctx, space, variant)
                    } else {
                        &&& lowered_arguments(ctx, types, args, fields, tree.spaces(), tree.children())
                        &&& names_product(
                            ctx,
                            space,
                            variant,
                            (types[ti].name, types[ti].constructors[ci].name),
                            tree.spaces(),
                        )
                    }
                },
            },
        },
    }
}

/// Each alternative stands for the space at its position.
pub open spec fn lowered_alternatives(
    ctx: DslContext,
    types: Seq<crate::dsl::syntax::TypeDeclView>,
    alternatives: Seq<PatternView>,
    expected: RuntimeTypeView,
    spaces: Seq<DslSpace>,
    trees: Seq<LoweringTree>,
) -> bool
    decreases alternatives,
{
    &&& spaces.len() == alternatives.len()
    &&& trees.len() == alternatives.len()
    &&& alternatives.len() > 0 ==> {
        &&& lowered_alternatives(
            ctx,
            types,
            alternatives.subrange(0, alternatives.len() - 1),
            expected,
            spaces.subrange(0, spaces.len() - 1),
            trees.subrange(0, trees.len() - 1),
        )
        &&& lowered(
            ctx,
            types,
            alternatives[alternatives.len() - 1],
            expected,
            spaces[spaces.len() - 1],
            trees[trees.len() - 1],
        )
    }
}

/// Each argument pattern stands for the space at its position, matched
/// against the field type there.
pub open spec fn lowered_arguments(
    ctx: DslContext,
    types: Seq<crate::dsl::syntax::TypeDeclView>,
    args: Seq<PatternView>,
    fields: Seq<RuntimeTypeView>,
    spaces: Seq<DslSpace>,
    trees: Seq<LoweringTree>,
) -> bool
    decreases args,
{
    &&& spaces.len() == args.len()
    &&& trees.len() == args.len()
    &&& args.len() > 0 ==> {
        &&& lowered_arguments(
            ctx,
            types,
            args.subrange(0, args.len() - 1),
            fields,
            spaces.subrange(0, spaces.len() - 1),
            trees.subrange(0, trees.len() - 1),
        )
        &&& lowered(
            ctx,
            types,
            args[args.len() - 1],
            fields[args.len() - 1],
            spaces[spaces.len() - 1],
            trees[trees.len() - 1],
        )
    }
}

/// The alternative at position `i` stands for the space at position `i`.
pub proof fn lemma_lowered_alternative_at(
    ctx: DslContext,
    types: Seq<crate::dsl::syntax::TypeDeclView>,
    alternatives: Seq<PatternView>,
    expected: RuntimeTypeView,
    spaces: Seq<DslSpace>,
    trees: Seq<LoweringTree>,
    i: int,
)
    requires
        lowered_alternatives(ctx, types, alternatives, expected, spaces, trees),
        0 <= i < alternatives.len(),
    ensures
        lowered(ctx, types, alternatives[i], expected, spaces[i], trees[i]),
    decreases alternatives.len(),
{
    let last = alternatives.len() - 1;
    if i < last {
        lemma_lowered_alternative_at(
            ctx,
            types,
            alternatives.subrange(0, last),
            expected,
            spaces.subrange(0, last),
            trees.subrange(0, last),
            i,
        );
    }
}

/// In a context whose interners hand out one key per item, one space at most
/// names a given type.
pub proof fn lemma_names_type_unique(ctx: DslContext, first: DslSpace, second: DslSpace, t: RuntimeTypeView)
    requires
        ctx.wf(),
        ctx.keys_distinct(),
        names_type(ctx, first, t),
        names_type(ctx, second, t),
    ensures
        first == second,
{
    let k1 = ctx.node(first)->Type_value_type;
    let k2 = ctx.node(second)->Type_value_type;
    ctx.type_interner().lemma_equal_items_same_key(k1, k2);
    ctx.lemma_node_unique(first, second);
}

/// A wildcard arm of a lowered match block stands for the scrutinee's space
/// itself, in a context whose interners hand out one key per item.
pub proof fn lemma_wildcard_arm_is_scrutinee(
    ctx: DslContext,
    types: Seq<crate::dsl::syntax::TypeDeclView>,
    block: crate::dsl::syntax::MatchBlockView,
    t: RuntimeTypeView,
    input: MatchInput<RuntimeType, RuntimeExtractor>,
    trees: Seq<LoweringTree>,
    i: int,
)
    requires
        ctx.wf(),
        ctx.keys_distinct(),
        match_lowered(ctx, types, block, t, input, trees),
        0 <= i < block.arms.len(),
        block.arms[i] is Wildcard,
    ensures
        input.arms@[i].pattern_space == input.scrutinee_space,
{
    lemma_lowered_alternative_at(ctx, types, block.arms, t, arm_spaces(input.arms@), trees, i);
    lemma_names_type_unique(ctx, input.arms@[i].pattern_space, input.scrutinee_space, t);
}

/// What a pattern stands for is a valid space.
pub proof fn lemma_lowered_valid(
    ctx: DslContext,
    types: Seq<crate::dsl::syntax::TypeDeclView>,
    pattern: PatternView,
    expected: RuntimeTypeView,
    space: DslSpace,
    tree: LoweringTree,
)
    requires
        lowered(ctx, types, pattern, expected, space, tree),
    ensures
        ctx.valid_space(space),
{
}

pub(crate) proof fn lemma_lowered_alternatives_valid(
    ctx: DslContext,
    types: Seq<crate::dsl::syntax::TypeDeclView>,
    alternatives: Seq<PatternView>,
    expected: RuntimeTypeView,
    spaces: Seq<DslSpace>,
    trees: Seq<LoweringTree>,
)
    requires
        lowered_alternatives(ctx, types, alternatives, expected, spaces, trees),
    ensures
        forall|i: int| 0 <= i < spaces.len() ==> ctx.valid_space(#[trigger] spaces[i]),
    decreases alternatives.len(),
{
    if alternatives.len() > 0 {
        let front = spaces.subrange(0, spaces.len() - 1);
        lemma_lowered_alternatives_valid(
            ctx,
            types,
            alternatives.subrange(0, alternatives.len() - 1),
            expected,
            front,
            trees.subrange(0, trees.len() - 1),
        );
        assert forall|i: int| 0 <= i < spaces.len() implies ctx.valid_space(#[trigger] spaces[i]) by {
            if i < spaces.len() - 1 {
                assert(front[i] == spaces[i]);
            } else {
                lemma_lowered_valid(ctx, types, alternatives[alternatives.len() - 1], expected, spaces[i], trees[trees.len() - 1]);
            }
        }
    }
}

proof fn lemma_lowered_arguments_valid(
    ctx: DslContext,
    types: Seq<crate::dsl::syntax::TypeDeclView>,
    args: Seq<PatternView>,
    fields: Seq<RuntimeTypeView>,
    spaces: Seq<DslSpace>,
    trees: Seq<LoweringTree>,
)
    requires
        lowered_arguments(ctx, types, args, fields, spaces, trees),
    ensures
        forall|i: int| 0 <= i < spaces.len() ==> ctx.valid_space(#[trigger] spaces[i]),
    decreases args.len(),
{
    if args.len() > 0 {
        let front = spaces.subrange(0, spaces.len() - 1);
        lemma_lowered_arguments_valid(ctx, types, args.subrange(0, args.len() - 1), fields, front, trees.subrange(0, trees.len() - 1));
        assert forall|i: int| 0 <= i < spaces.len() implies ctx.valid_space(#[trigger] spaces[i]) by {
            if i < spaces.len() - 1 {
                assert(front[i] == spaces[i]);
            } else {
                lemma_lowered_valid(ctx, types, args[args.len() - 1], fields[args.len() - 1], spaces[i], trees[trees.len() - 1]);
            }
        }
    }
}

/// Growing the context keeps what a pattern stands for.
pub proof fn lemma_lowered_extends(
    ctx: DslContext,
    prev: DslContext,
    types: Seq<crate::dsl::syntax::TypeDeclView>,
    pattern: PatternView,
    expected: RuntimeTypeView,
    space: DslSpace,
    tree: LoweringTree,
)
    requires
        ctx.extends(prev),
        lowered(prev, types, pattern, expected, space, tree),
    ensures
        lowered(ctx, types, pattern, expected, space, tree),
    decreases pattern,
{
    if space@ != 0 {
        assert(ctx.nodes()[space@ - 1] == prev.nodes()[space@ - 1]);
    }
    match pattern {
        PatternView::Wildcard { .. } => {
            let k = prev.node(space)->Type_value_type;
            assert(prev.type_interner().valid_key(k));
        },
        PatternView::Or { alternatives, .. } => {
            let spaces = tree.spaces();
            lemma_lowered_alternatives_extends(ctx, prev, types, alternatives, expected, spaces, tree.children());
            lemma_lowered_alternatives_valid(prev, types, alternatives, expected, spaces, tree.children());
            ctx.lemma_union_member_list_extends(prev, spaces);
            ctx.lemma_is_union_of_extends(prev, space, prev.union_member_list(spaces));
        },
        PatternView::Constructor { name, args, span } => {
            if let Ok((ti, ci, adt_args)) = find_constructor(types, expected, name, span) {
                if let Ok(fields) = variant_fields(types, ti, ci, adt_args) {
                    if fields.len() == 0 {
                        let k = prev.node(space)->Type_value_type;
                        assert(prev.type_interner().valid_key(k));
                    } else {
                        lemma_lowered_arguments_extends(ctx, prev, types, args, fields, tree.spaces(), tree.children());
                        let k = prev.node(space)->Product_value_type;
                        let x = prev.node(space)->Product_extractor;
                        assert(prev.type_interner().valid_key(k));
                        assert(prev.extractor_interner().valid_key(x));
                    }
                }
            }
        },
    }
}

pub(crate) proof fn lemma_lowered_alternatives_extends(
    ctx: DslContext,
    prev: DslContext,
    types: Seq<crate::dsl::syntax::TypeDeclView>,
    alternatives: Seq<PatternView>,
    expected: RuntimeTypeView,
    spaces: Seq<DslSpace>,
    trees: Seq<LoweringTree>,
)
    requires
        ctx.extends(prev),
        lowered_alternatives(prev, types, alternatives, expected, spaces, trees),
    ensures
        lowered_alternatives(ctx, types, alternatives, expected, spaces, trees),
    decreases alternatives,
{
    if alternatives.len() > 0 {
        lemma_lowered_alternatives_extends(
            ctx,
            prev,
            types,
            alternatives.subrange(0, alternatives.len() - 1),
            expected,
            spaces.subrange(0, spaces.len() - 1),
            trees.subrange(0, trees.len() - 1),
        );
        lemma_lowered_extends(
            ctx,
            prev,
            types,
            alternatives[alternatives.len() - 1],
            expected,
            spaces[spaces.len() - 1],
            trees[trees.len() - 1],
        );
    }
}

proof fn lemma_lowered_arguments_extends(
    ctx: DslContext,
    prev: DslContext,
    types: Seq<crate::dsl::syntax::TypeDeclView>,
    args: Seq<PatternView>,
    fields: Seq<RuntimeTypeView>,
    spaces: Seq<DslSpace>,
    trees: Seq<LoweringTree>,
)
    requires
        ctx.extends(prev),
        lowered_arguments(prev, types, args, fields, spaces, trees),
    ensures
        lowered_arguments(ctx, types, args, fields, spaces, trees),
    decreases args,
{
    if args.len() > 0 {
        lemma_lowered_arguments_extends(
            ctx,
            prev,
            types,
            args.subrange(0, args.len() - 1),
            fields,
            spaces.subrange(0, spaces.len() - 1),
            trees.subrange(0, trees.len() - 1),
        );
        lemma_lowered_extends(
            ctx,
            prev,
            types,
            args[args.len() - 1],
            fields[args.len() - 1],
            spaces[spaces.len() - 1],
            trees[trees.len() - 1],
        );
    }
}

proof fn lemma_alternatives_error_at(
    types: Seq<crate::dsl::syntax::TypeDeclView>,
    alternatives: Seq<PatternView>,
    expected: RuntimeTypeView,
    i: int,
)
    requires
        0 <= i < alternatives.len(),
        lower_alternatives_error(types, alternatives.subrange(0, i), expected) is None,
        lower_error(types, alternatives[i], expected) is Some,
    ensures
        lower_alternatives_error(types, alternatives, expected) == lower_error(types, alternatives[i], expected),
    decreases alternatives.len(),
{
    if i == alternatives.len() - 1 {
        assert(alternatives.subrange(0, alternatives.len() - 1) =~= alternatives.subrange(0, i));
    } else {
        let front = alternatives.subrange(0, alternatives.len() - 1);
        assert(front.subrange(0, i) =~= alternatives.subrange(0, i));
        assert(front[i] == alternatives[i]);
        lemma_alternatives_error_at(types, front, expected, i);
    }
}

proof fn lemma_arguments_error_at(
    types: Seq<crate::dsl::syntax::TypeDeclView>,
    args: Seq<PatternView>,
    fields: Seq<RuntimeTypeView>,
    i: int,
)
    requires
        0 <= i < args.len(),
        lower_arguments_error(types, args.subrange(0, i), fields) is None,
        lower_error(types, args[i], fields[i]) is Some,
    ensures
        lower_arguments_error(types, args, fields) == lower_error(types, args[i], fields[i]),
    decreases args.len(),
{
    if i == args.len() - 1 {
        assert(args.subrange(0, args.len() - 1) =~= args.subrange(0, i));
    } else {
        let front = args.subrange(0, args.len() - 1);
        assert(front.subrange(0, i) =~= args.subrange(0, i));
        assert(front[i] == args[i]);
        lemma_arguments_error_at(types, front, fields, i);
    }
}

/// After `of_type(value)`, the space names the type of `value`.
proof fn lemma_of_type_names(ctx: DslContext, prev: DslContext, space: DslSpace, value: RuntimeType)
    requires
        ctx.valid_space(space),
        space@ != 0,
        ctx.wf(),
        ctx.node(space) matches SpaceNode::Type { value_type: key, introduced_by_decomposition }
            && introduced_by_decomposition
            && exists|interned: InternedId| #![trigger ctx.type_interner().valid_key(interned)] {
                &&& ctx.type_interner().valid_key(interned)
                &&& ctx.type_interner().item(interned) == value || (prev.type_interner().valid_key(interned)
                    && runtime_type_view(ctx.type_interner().item(interned)) == runtime_type_view(value))
                &&& key == interned || key.position() == interned.position()
            },
    ensures
        names_type(ctx, space, runtime_type_view(value)),
{
    let key = ctx.node(space)->Type_value_type;
    let interned = choose|interned: InternedId| #![trigger ctx.type_interner().valid_key(interned)] {
        &&& ctx.type_interner().valid_key(interned)
        &&& ctx.type_interner().item(interned) == value || (prev.type_interner().valid_key(interned)
            && runtime_type_view(ctx.type_interner().item(interned)) == runtime_type_view(value))
        &&& key == interned || key.position() == interned.position()
    };
    if key != interned {
        InternedId::lemma_same_position(key, interned);
    }
}

impl<'a> Model<'a> {
    /// The space that a pattern stands for when matched against a value of
    /// type `expected`, with how the spaces of its parts were found.
    #[verifier::loop_isolation(false)]
    pub fn lower_pattern(&self, context: &mut DslContext, pattern: &Pattern, expected: &RuntimeType) -> (result: Result<
        (DslSpace, Ghost<LoweringTree>),
        DslError,
    >)
        requires
            old(context).wf(),
            build_error(self.decls()) is None,
            wf_type(self.decls(), runtime_type_view(*expected)),
        ensures
            final(context).wf(),
            final(context).extends(*old(context)),
            old(context).keys_distinct() ==> final(context).keys_distinct(),
            match result {
                Ok((space, tree)) => lower_error(self.decls(), pattern_view(*pattern), runtime_type_view(*expected)) is None
                    && lowered(*final(context), self.decls(), pattern_view(*pattern), runtime_type_view(*expected), space, tree@),
                Err(e) => lower_error(self.decls(), pattern_view(*pattern), runtime_type_view(*expected)) == Some(e.view()),
            },
        decreases pattern,
    {
        let ghost types = self.decls();
        let ghost expected_view = runtime_type_view(*expected);
        let ghost leaf = LoweringTree::Node { spaces: Seq::empty(), children: Seq::empty() };
        match pattern {
            Pattern::Wildcard { .. } => {
                let ghost before = *context;
                let value = copy_runtime_type(expected);
                let ghost value_view = value;
                let space = context.of_type(value);
                proof {
                    lemma_of_type_names(*context, before, space, value_view);
                }
                Ok((space, Ghost(leaf)))
            },
            Pattern::Or { alternatives, .. } => {
                let ghost alts = patterns_view(alternatives@);
                proof {
                    lemma_patterns_view(alternatives@);
                }
                let mut spaces: Vec<DslSpace> = Vec::new();
                let ghost mut trees: Seq<LoweringTree> = Seq::empty();
                let mut i: usize = 0;
                proof {
                    assert(alts.subrange(0, 0) =~= Seq::<PatternView>::empty());
                }
                while i < alternatives.len()
                    invariant
                        i <= alternatives@.len(),
                        pattern->alternatives == *alternatives,
                        alts == patterns_view(alternatives@),
                        alts.len() == alternatives@.len(),
                        forall|j: int| 0 <= j < alternatives@.len() ==> #[trigger] alts[j] == pattern_view(alternatives@[j]),
                        types == self.decls(),
                        build_error(types) is None,
                        expected_view == runtime_type_view(*expected),
                        wf_type(types, expected_view),
                        context.wf(),
                        context.extends(*old(context)),
                        old(context).keys_distinct() ==> context.keys_distinct(),
                        lowered_alternatives(*context, types, alts.subrange(0, i as int), expected_view, spaces@, trees),
                        lower_alternatives_error(types, alts.subrange(0, i as int), expected_view) is None,
                    decreases alternatives@.len() - i,
                {
                    let ghost before = *context;
                    let lowered_alternative = self.lower_pattern(context, &alternatives[i], expected);
                    proof {
                        SpaceContext::lemma_extends_trans(*context, before, *old(context));
                        assert(alts.subrange(0, i + 1).subrange(0, i as int) =~= alts.subrange(0, i as int));
                    }
                    let (space, tree) = match lowered_alternative {
                        Ok(found) => found,
                        Err(e) => {
                            proof {
                                lemma_alternatives_error_at(types, alts, expected_view, i as int);
                            }
                            return Err(e);
                        },
                    };
                    proof {
                        lemma_lowered_alternatives_extends(
                            *context,
                            before,
                            types,
                            alts.subrange(0, i as int),
                            expected_view,
                            spaces@,
                            trees,
                        );
                        assert(spaces@.push(space).subrange(0, i as int) =~= spaces@);
                        assert(trees.push(tree@).subrange(0, i as int) =~= trees);
                        trees = trees.push(tree@);
                    }
                    spaces.push(space);
                    i = i + 1;
                }
                proof {
                    assert(alts.subrange(0, alts.len() as int) =~= alts);
                    lemma_lowered_alternatives_valid(*context, types, alts, expected_view, spaces@, trees);
                }
                let ghost members = spaces@;
                let ghost before = *context;
                let space = context.union(spaces);
                proof {
                    SpaceContext::lemma_extends_trans(*context, before, *old(context));
                    lemma_lowered_alternatives_extends(*context, before, types, alts, expected_view, members, trees);
                    context.lemma_union_member_list_extends(before, members);
                }
                Ok((space, Ghost(LoweringTree::Node { spaces: members, children: trees })))
            },
            Pattern::Constructor { name, args, span } => {
                let (ti, ci, adt_args) = match self.constructor_in_type(expected, name, *span) {
                    Ok(found) => found,
                    Err(e) => return Err(e),
                };
                let ghost adt_view = runtime_types_view(adt_args@);
                proof {
                    lemma_find_constructor(types, expected_view, name@, *span);
                    lemma_variant_fields(types, ti as int, ci as int, adt_view);
                }
                let variant = match self.variant_type(ti, ci, &adt_args) {
                    Some(variant) => variant,
                    None => return Err(DslError::at(String::new(), *span)),
                };
                let ghost fields_view = variant_fields(types, ti as int, ci as int, adt_view)->Ok_0;
                let ghost variant_value = variant;
                let fields = match &variant {
                    RuntimeType::Variant { fields, .. } => fields,
                    RuntimeType::Adt { .. } => return Err(DslError::at(String::new(), *span)),
                };
                proof {
                    lemma_runtime_types_view(fields@);
                    lemma_patterns_view(args@);
                    lemma_wf_types(types, fields_view);
                }
                if fields.len() != args.len() {
                    let message = String::from_str("Constructor `").concat(name.as_str()).concat("` expects ").concat(
                        decimal_string(fields.len()).as_str(),
                    ).concat(" argument(s), got ").concat(decimal_string(args.len()).as_str());
                    return Err(DslError::at(message, *span));
                }
                if fields.len() == 0 {
                    let ghost before = *context;
                    let space = context.of_type(variant);
                    proof {
                        lemma_of_type_names(*context, before, space, variant_value);
                        assert(patterns_view(args@) =~= Seq::<PatternView>::empty());
                    }
                    return Ok((space, Ghost(leaf)));
                }
                let ghost arg_views = patterns_view(args@);
                let mut parameters: Vec<DslSpace> = Vec::new();
                let ghost mut trees: Seq<LoweringTree> = Seq::empty();
                let mut i: usize = 0;
                proof {
                    assert(arg_views.subrange(0, 0) =~= Seq::<PatternView>::empty());
                }
                while i < args.len()
                    invariant
                        i <= args@.len(),
                        args@.len() == fields@.len(),
                        arg_views == patterns_view(args@),
                        arg_views.len() == args@.len(),
                        forall|j: int| 0 <= j < args@.len() ==> #[trigger] arg_views[j] == pattern_view(args@[j]),
                        runtime_types_view(fields@) == fields_view,
                        fields_view.len() == fields@.len(),
                        forall|j: int| 0 <= j < fields@.len() ==> #[trigger] fields_view[j] == runtime_type_view(fields@[j]),
                        forall|j: int| 0 <= j < fields_view.len() ==> #[trigger] wf_type(types, fields_view[j]),
                        types == self.decls(),
                        build_error(types) is None,
                        context.wf(),
                        context.extends(*old(context)),
                        old(context).keys_distinct() ==> context.keys_distinct(),
                        lowered_arguments(*context, types, arg_views.subrange(0, i as int), fields_view, parameters@, trees),
                        lower_arguments_error(types, arg_views.subrange(0, i as int), fields_view) is None,
                    decreases args@.len() - i,
                {
                    let ghost before = *context;
                    proof {
                        assert(wf_type(types, fields_view[i as int]));
                    }
                    let lowered_argument = self.lower_pattern(context, &args[i], &fields[i]);
                    proof {
                        SpaceContext::lemma_extends_trans(*context, before, *old(context));
                        assert(arg_views.subrange(0, i + 1).subrange(0, i as int) =~= arg_views.subrange(0, i as int));
                    }
                    let (space, tree) = match lowered_argument {
                        Ok(found) => found,
                        Err(e) => {
                            proof {
                                lemma_arguments_error_at(types, arg_views, fields_view, i as int);
                            }
                            return Err(e);
                        },
                    };
                    proof {
                        lemma_lowered_arguments_extends(
                            *context,
                            before,
                            types,
                            arg_views.subrange(0, i as int),
                            fields_view,
                            parameters@,
                            trees,
                        );
                        assert(parameters@.push(space).subrange(0, i as int) =~= parameters@);
                        assert(trees.push(tree@).subrange(0, i as int) =~= trees);
                        trees = trees.push(tree@);
                    }
                    parameters.push(space);
                    i = i + 1;
                }
                proof {
                    assert(arg_views.subrange(0, arg_views.len() as int) =~= arg_views);
                    lemma_lowered_arguments_valid(*context, types, arg_views, fields_view, parameters@, trees);
                }
                let decl = self.type_decl_at(ti);
                let extractor = RuntimeExtractor {
                    adt: decl.name.clone(),
                    constructor: decl.constructors[ci].name.clone(),
                };
                let ghost extractor_view = extractor;
                proof {
                    assert(types[ti as int].constructors[ci as int] == decl.constructors@[ci as int].view());
                }
                let ghost members = parameters@;
                let ghost before = *context;
                let space = context.product(variant, extractor, parameters);
                proof {
                    SpaceContext::lemma_extends_trans(*context, before, *old(context));
                    lemma_lowered_arguments_extends(*context, before, types, arg_views, fields_view, members, trees);
                    lemma_product_names(*context, before, space, variant_value, extractor_view);
                }
                Ok((space, Ghost(LoweringTree::Node { spaces: members, children: trees })))
            },
        }
    }
}

/// After `product(value, extractor, ..)`, the space's keys stand for them.
proof fn lemma_product_names(ctx: DslContext, prev: DslContext, space: DslSpace, value: RuntimeType, extractor: RuntimeExtractor)
    requires
        ctx.wf(),
        ctx.valid_space(space),
        space@ != 0,
        ctx.node(space) matches SpaceNode::Product { value_type: key, extractor: extractor_key, .. }
            && exists|interned: InternedId| #![trigger ctx.type_interner().valid_key(interned)] {
                &&& ctx.type_interner().valid_key(interned)
                &&& ctx.type_interner().item(interned) == value || (prev.type_interner().valid_key(interned)
                    && runtime_type_view(ctx.type_interner().item(interned)) == runtime_type_view(value))
                &&& key == interned || key.position() == interned.position()
            }
            && exists|interned: InternedId| #![trigger ctx.extractor_interner().valid_key(interned)] {
                &&& ctx.extractor_interner().valid_key(interned)
                &&& ctx.extractor_interner().item(interned) == extractor || (prev.extractor_interner().valid_key(interned)
                    && ctx.extractor_interner().item(interned).view() == extractor.view())
                &&& extractor_key == interned || extractor_key.position() == interned.position()
            },
    ensures
        ctx.node(space) matches SpaceNode::Product { value_type: k, extractor: x, .. }
            && ctx.type_interner().valid_key(k) && runtime_type_view(ctx.type_interner().item(k)) == runtime_type_view(value)
            && ctx.extractor_interner().valid_key(x) && ctx.extractor_interner().item(x).view() == extractor.view(),
{
    let key = ctx.node(space)->Product_value_type;
    let extractor_key = ctx.node(space)->Product_extractor;
    let interned = choose|interned: InternedId| #![trigger ctx.type_interner().valid_key(interned)] {
        &&& ctx.type_interner().valid_key(interned)
        &&& ctx.type_interner().item(interned) == value || (prev.type_interner().valid_key(interned)
            && runtime_type_view(ctx.type_interner().item(interned)) == runtime_type_view(value))
        &&& key == interned || key.position() == interned.position()
    };
    let interned_extractor = choose|interned: InternedId| #![trigger ctx.extractor_interner().valid_key(interned)] {
        &&& ctx.extractor_interner().valid_key(interned)
        &&& ctx.extractor_interner().item(interned) == extractor || (prev.extractor_interner().valid_key(interned)
            && ctx.extractor_interner().item(interned).view() == extractor.view())
        &&& extractor_key == interned || extractor_key.position() == interned.position()
    };
    if key != interned {
        InternedId::lemma_same_position(key, interned);
    }
    if extractor_key != interned_extractor {
        InternedId::lemma_same_position(extractor_key, interned_extractor);
    }
}

/// The first error of the match block: the scrutinee's type does not
/// resolve, or an arm's pattern does not fit it.
pub open spec fn match_error(types: Seq<crate::dsl::syntax::TypeDeclView>, block: crate::dsl::syntax::MatchBlockView) -> Option<
    ErrorView,
> {
    match crate::dsl::model::resolve_type(types, block.scrutinee, Seq::empty()) {
        Err(e) => Some(e),
        Ok(t) => lower_alternatives_error(types, block.arms, t),
    }
}

/// The pattern spaces of the arms.
pub open spec fn arm_spaces(arms: Seq<MatchArm<RuntimeType, RuntimeExtractor>>) -> Seq<DslSpace> {
    arms.map_values(|arm: MatchArm<RuntimeType, RuntimeExtractor>| arm.pattern_space)
}

/// `input` is the match block's input in `ctx`: the scrutinee space is its
/// whole type `t`, and each arm stands for its pattern, a wildcard arm for a
/// top-level wildcard, with no arm partial, no null space and no
/// satisfiability filter.
pub open spec fn match_lowered(
    ctx: DslContext,
    types: Seq<crate::dsl::syntax::TypeDeclView>,
    block: crate::dsl::syntax::MatchBlockView,
    t: RuntimeTypeView,
    input: MatchInput<RuntimeType, RuntimeExtractor>,
    trees: Seq<LoweringTree>,
) -> bool {
    &&& names_type(ctx, input.scrutinee_space, t)
    &&& input.arms@.len() == block.arms.len()
    &&& forall|i: int|
        0 <= i < input.arms@.len() ==> {
            &&& (#[trigger] input.arms@[i]).is_wildcard == (block.arms[i] is Wildcard)
            &&& !input.arms@[i].is_partial
        }
    &&& input.null_space is None
    &&& !input.check_counterexample_satisfiability
    &&& lowered_alternatives(ctx, types, block.arms, t, arm_spaces(input.arms@), trees)
}

impl<'a> Model<'a> {
    /// The scrutinee's type and the analysis input of the program's match block.
    #[verifier::loop_isolation(false)]
    pub fn lower_match(&self, program: &Program, context: &mut DslContext) -> (result: Result<
        (RuntimeType, MatchInput<RuntimeType, RuntimeExtractor>, Ghost<Seq<LoweringTree>>),
        DslError,
    >)
        requires
            old(context).wf(),
            build_error(self.decls()) is None,
        ensures
            final(context).wf(),
            final(context).extends(*old(context)),
            old(context).keys_distinct() ==> final(context).keys_distinct(),
            match result {
                Ok((scrutinee, input, trees)) => {
                    &&& match_error(self.decls(), program.view().match_input) is None
                    &&& crate::dsl::model::resolve_type(self.decls(), program.view().match_input.scrutinee, Seq::empty())
                        == Ok::<_, ErrorView>(runtime_type_view(scrutinee))
                    &&& match_lowered(
                        *final(context),
                        self.decls(),
                        program.view().match_input,
                        runtime_type_view(scrutinee),
                        input,
                        trees@,
                    )
                },
                Err(e) => match_error(self.decls(), program.view().match_input) == Some(e.view()),
            },
    {
        let ghost types = self.decls();
        let no_bindings: Vec<(String, RuntimeType)> = Vec::new();
        proof {
            assert(crate::dsl::model::bindings_view(no_bindings@) =~= Seq::<(Seq<char>, RuntimeTypeView)>::empty());
        }
        let scrutinee = match self.resolve_type(&program.match_input.scrutinee, &no_bindings) {
            Ok(scrutinee) => scrutinee,
            Err(e) => return Err(e),
        };
        let ghost t = runtime_type_view(scrutinee);
        proof {
            crate::dsl::resolve::lemma_closed_resolves_wf(types, program.view().match_input.scrutinee);
        }
        let ghost before = *context;
        let value = copy_runtime_type(&scrutinee);
        let ghost value_copy = value;
        let scrutinee_space = context.of_type(value);
        proof {
            lemma_of_type_names(*context, before, scrutinee_space, value_copy);
        }
        let patterns = &program.match_input.arms;
        let ghost arms_view = patterns_view(patterns@);
        proof {
            lemma_patterns_view(patterns@);
            assert(arms_view.subrange(0, 0) =~= Seq::<PatternView>::empty());
        }
        let mut arms: Vec<MatchArm<RuntimeType, RuntimeExtractor>> = Vec::new();
        let ghost mut trees: Seq<LoweringTree> = Seq::empty();
        let mut i: usize = 0;
        proof {
            assert(arm_spaces(arms@) =~= Seq::<DslSpace>::empty());
        }
        while i < patterns.len()
            invariant
                i <= patterns@.len(),
                arms_view == patterns_view(patterns@),
                arms_view.len() == patterns@.len(),
                forall|j: int| 0 <= j < patterns@.len() ==> #[trigger] arms_view[j] == pattern_view(patterns@[j]),
                context.wf(),
                context.extends(*old(context)),
                old(context).keys_distinct() ==> context.keys_distinct(),
                names_type(*context, scrutinee_space, t),
                arms@.len() == i,
                forall|j: int|
                    0 <= j < i ==> (#[trigger] arms@[j]).is_wildcard == (arms_view[j] is Wildcard) && !arms@[j].is_partial,
                lowered_alternatives(*context, types, arms_view.subrange(0, i as int), t, arm_spaces(arms@), trees),
                lower_alternatives_error(types, arms_view.subrange(0, i as int), t) is None,
            decreases patterns@.len() - i,
        {
            let ghost before_arm = *context;
            let pattern = &patterns[i];
            let lowered_arm = self.lower_pattern(context, pattern, &scrutinee);
            proof {
                SpaceContext::lemma_extends_trans(*context, before_arm, *old(context));
                assert(arms_view.subrange(0, i + 1).subrange(0, i as int) =~= arms_view.subrange(0, i as int));
                if scrutinee_space@ != 0 {
                    assert(context.nodes()[scrutinee_space@ - 1] == before_arm.nodes()[scrutinee_space@ - 1]);
                }
            }
            let (space, tree) = match lowered_arm {
                Ok(found) => found,
                Err(e) => {
                    proof {
                        lemma_alternatives_error_at(types, arms_view, t, i as int);
                    }
                    return Err(e);
                },
            };
            proof {
                lemma_lowered_alternatives_extends(
                    *context,
                    before_arm,
                    types,
                    arms_view.subrange(0, i as int),
                    t,
                    arm_spaces(arms@),
                    trees,
                );
                let k = before_arm.node(scrutinee_space)->Type_value_type;
                assert(before_arm.type_interner().valid_key(k));
            }
            let arm = match pattern {
                Pattern::Wildcard { .. } => MatchArm::wildcard(space),
                _ => MatchArm::new(space),
            };
            proof {
                assert(arm_spaces(arms@.push(arm)) =~= arm_spaces(arms@).push(space));
                assert(arm_spaces(arms@.push(arm)).subrange(0, i as int) =~= arm_spaces(arms@));
                assert(trees.push(tree@).subrange(0, i as int) =~= trees);
                trees = trees.push(tree@);
            }
            arms.push(arm);
            i = i + 1;
        }
        proof {
            assert(arms_view.subrange(0, arms_view.len() as int) =~= arms_view);
        }
        let input = MatchInput::new(scrutinee_space, arms);
        Ok((scrutinee, input, Ghost(trees)))
    }
}

} // verus!
