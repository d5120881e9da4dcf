use vstd::prelude::*;
use vstd::string::*;

use crate::dsl::lower::{
    arm_spaces, lemma_wildcard_arm_is_scrutinee, lemma_lowered_alternatives_extends, lemma_lowered_alternatives_valid, match_error, match_lowered,
    names_type, DslContext, DslSpace, LoweringTree,
};
use crate::dsl::model::{build_error, resolve_type, Model};
use crate::dsl::parser::{parse, parse_spec};
use crate::dsl::syntax::{
    lemma_type_exprs_view, render_type_expr_list, strings_view, type_exprs_view, ConstructorDecl, ConstructorDeclView,
    DslError, ErrorView, ProgramView, Span, TypeDecl, TypeDeclView,
};
use crate::dsl::types::{render_runtime_type, runtime_type_text, runtime_type_view, RuntimeExtractor, RuntimeType};
use crate::engine::SpaceEngine;
use crate::interner::{DedupInterner, SpaceInterner};
use crate::match_analysis::{analysis_ok, ends_with_catch_all, input_ok};
use crate::match_input::{MatchAnalysis, MatchInput, ReachabilityWarning};
use crate::space::{SpaceContext, SpaceKind, SpaceNode};

verus! {

/// How one arm of the match block came out.
#[derive(Debug)]
pub struct ArmResponse {
    pub index: usize,
    pub source: String,
    pub span: Span,
    pub space: String,
    pub reachable: bool,
}

/// A reachability warning, as reported.
#[derive(Debug)]
pub enum WarningResponse {
    Unreachable { arm_index: usize, covering_arm_indices: Vec<usize> },
    OnlyNull { arm_index: usize, covering_arm_indices: Vec<usize> },
}

/// A declared type, as reported: its name, its parameters and how each
/// constructor is written.
#[derive(Debug)]
pub struct TypeResponse {
    pub name: String,
    pub params: Vec<String>,
    pub constructors: Vec<String>,
}

/// The outcome of checking a program.
#[derive(Debug)]
pub struct SuccessResponse {
    pub ok: bool,
    pub scrutinee: String,
    pub is_exhaustive: bool,
    pub uncovered: Vec<String>,
    pub warnings: Vec<WarningResponse>,
    pub arms: Vec<ArmResponse>,
    pub types: Vec<TypeResponse>,
}

/// How a space is written: `empty`, a type as it is written, a product as its
/// constructor with its parameters between `(` and `)`, a union as its members
/// separated by ` | `.
pub open spec fn space_text(ctx: DslContext, space: DslSpace) -> Seq<char>
    decreases space@ + 1, 0nat,
{
    if space@ == 0 || !ctx.valid_space(space) {
        "empty"@
    } else {
        match ctx.node(space) {
            SpaceNode::Type { value_type, .. } => runtime_type_text(runtime_type_view(ctx.type_interner().item(value_type))),
            SpaceNode::Product { extractor, parameters, .. } => {
                let name = ctx.extractor_interner().item(extractor).constructor@;
                if parameters@.len() == 0 {
                    name
                } else {
                    name + "("@ + space_list_text(ctx, parameters@, ", "@, space@) + ")"@
                }
            },
            SpaceNode::Union(members) => space_list_text(ctx, members@, " | "@, space@),
        }
    }
}

/// Spaces below `bound` written one after the other, separated by `separator`.
pub open spec fn space_list_text(ctx: DslContext, spaces: Seq<DslSpace>, separator: Seq<char>, bound: nat) -> Seq<
    char,
>
    decreases bound, spaces.len(),
{
    if spaces.len() == 0 || spaces[spaces.len() - 1]@ >= bound {
        Seq::empty()
    } else if spaces.len() == 1 {
        space_text(ctx, spaces[0])
    } else {
        space_list_text(ctx, spaces.subrange(0, spaces.len() - 1), separator, bound) + separator + space_text(
            ctx,
            spaces[spaces.len() - 1],
        )
    }
}

/// Writes the spaces of `spaces` separated by `separator`.
fn format_space_list(context: &DslContext, spaces: &[DslSpace], separator: &str, Ghost(bound): Ghost<nat>) -> (text: String)
    requires
        context.wf(),
        forall|j: int| 0 <= j < spaces@.len() ==> (#[trigger] spaces@[j])@ < bound && context.valid_space(spaces@[j]),
    ensures
        text@ == space_list_text(*context, spaces@, separator@, bound),
    decreases bound, 1nat,
{
    let mut text = String::new();
    let mut i: usize = 0;
    while i < spaces.len()
        invariant
            context.wf(),
            i <= spaces@.len(),
            forall|j: int| 0 <= j < spaces@.len() ==> (#[trigger] spaces@[j])@ < bound && context.valid_space(spaces@[j]),
            text@ == space_list_text(*context, spaces@.subrange(0, i as int), separator@, bound),
        decreases spaces@.len() - i,
    {
        let ghost prefix = spaces@.subrange(0, i + 1);
        proof {
            assert(prefix.subrange(0, i as int) =~= spaces@.subrange(0, i as int));
            assert(prefix[i as int] == spaces@[i as int]);
        }
        let part = format_space(context, spaces[i]);
        if i > 0 {
            text = text.concat(separator);
        }
        text = text.concat(part.as_str());
        i = i + 1;
    }
    proof {
        assert(spaces@.subrange(0, spaces@.len() as int) =~= spaces@);
    }
    text
}

/// How a space is written.
pub fn format_space(context: &DslContext, space: DslSpace) -> (text: String)
    requires
        context.wf(),
        context.valid_space(space),
    ensures
        text@ == space_text(*context, space),
    decreases space@ + 1, 0nat,
{
    proof {
        if space@ != 0 {
            assert(context.node_ok(context.nodes()[space@ - 1], space@ - 1));
        }
    }
    match context.kind(space) {
        SpaceKind::Empty => String::from_str("empty"),
        SpaceKind::Type(kind) => render_runtime_type(kind.value_type),
        SpaceKind::Product(kind) => {
            let name = kind.extractor.constructor.clone();
            if kind.parameters.len() == 0 {
                name
            } else {
                let inner = format_space_list(context, kind.parameters, ", ", Ghost(space@));
                name.concat("(").concat(inner.as_str()).concat(")")
            }
        },
        SpaceKind::Union(members) => format_space_list(context, members, " | ", Ghost(space@)),
    }
}

/// How a constructor is written: its name, with its field types between `(`
/// and `)` when it has any.
pub open spec fn constructor_text(constructor: ConstructorDeclView) -> Seq<char> {
    if constructor.fields.len() == 0 {
        constructor.name
    } else {
        constructor.name + "("@ + render_type_expr_list(constructor.fields) + ")"@
    }
}

/// `response` reports declaration `decl`.
pub open spec fn type_response_of(response: TypeResponse, decl: TypeDeclView) -> bool {
    &&& response.name@ == decl.name
    &&& strings_view(response.params@) == decl.params
    &&& strings_view(response.constructors@) == decl.constructors.map_values(|c: ConstructorDeclView| constructor_text(c))
}

fn copy_strings(strings: &Vec<String>) -> (copy: Vec<String>)
    ensures
        strings_view(copy@) == strings_view(strings@),
{
    let mut copy: Vec<String> = Vec::new();
    let mut i: usize = 0;
    while i < strings.len()
        invariant
            i <= strings@.len(),
            strings_view(copy@) == strings_view(strings@).subrange(0, i as int),
        decreases strings@.len() - i,
    {
        let s = strings[i].clone();
        proof {
            assert(strings_view(copy@.push(s)) =~= strings_view(copy@).push(s@));
            assert(strings_view(strings@).subrange(0, i + 1) =~= strings_view(strings@).subrange(0, i as int).push(
                strings@[i as int]@));
        }
        copy.push(s);
        i = i + 1;
    }
    proof {
        assert(strings_view(strings@).subrange(0, strings@.len() as int) =~= strings_view(strings@));
    }
    copy
}

fn constructor_string(constructor: &ConstructorDecl) -> (text: String)
    ensures
        text@ == constructor_text(constructor.view()),
{
    proof {
        lemma_type_exprs_view(constructor.fields@);
    }
    if constructor.fields.len() == 0 {
        constructor.name.clone()
    } else {
        constructor.name.clone().concat("(").concat(crate::dsl::syntax::render_type_exprs(&constructor.fields).as_str()).concat(
            ")",
        )
    }
}

/// The declarations of a program, as reported.
pub fn response_types(types: &Vec<TypeDecl>) -> (responses: Vec<TypeResponse>)
    ensures
        responses@.len() == types@.len(),
        forall|i: int| 0 <= i < types@.len() ==> type_response_of(#[trigger] responses@[i], types@[i].view()),
{
    let mut responses: Vec<TypeResponse> = Vec::new();
    let mut i: usize = 0;
    while i < types.len()
        invariant
            i <= types@.len(),
            responses@.len() == i,
            forall|j: int| 0 <= j < i ==> type_response_of(#[trigger] responses@[j], types@[j].view()),
        decreases types@.len() - i,
    {
        let decl = &types[i];
        let mut constructors: Vec<String> = Vec::new();
        let ghost texts = decl.view().constructors.map_values(|c: ConstructorDeclView| constructor_text(c));
        let mut k: usize = 0;
        while k < decl.constructors.len()
            invariant
                k <= decl.constructors@.len(),
                texts == decl.view().constructors.map_values(|c: ConstructorDeclView| constructor_text(c)),
                texts.len() == decl.constructors@.len(),
                strings_view(constructors@) == texts.subrange(0, k as int),
            decreases decl.constructors@.len() - k,
        {
            let text = constructor_string(&decl.constructors[k]);
            proof {
                assert(texts[k as int] == constructor_text(decl.constructors@[k as int].view()));
                assert(strings_view(constructors@.push(text)) =~= strings_view(constructors@).push(text@));
                assert(texts.subrange(0, k + 1) =~= texts.subrange(0, k as int).push(texts[k as int]));
            }
            constructors.push(text);
            k = k + 1;
        }
        proof {
            assert(texts.subrange(0, texts.len() as int) =~= texts);
        }
        let response = TypeResponse { name: decl.name.clone(), params: copy_strings(&decl.params), constructors };
        responses.push(response);
        i = i + 1;
    }
    responses
}

/// `response` reports `warning`.
pub open spec fn warning_response_of(response: WarningResponse, warning: ReachabilityWarning) -> bool {
    match (response, warning) {
        (
            WarningResponse::Unreachable { arm_index: a, covering_arm_indices: c },
            ReachabilityWarning::Unreachable { arm_index: b, covering_arm_indices: d },
        ) => a == b && c@ == d@,
        (
            WarningResponse::OnlyNull { arm_index: a, covering_arm_indices: c },
            ReachabilityWarning::OnlyNull { arm_index: b, covering_arm_indices: d },
        ) => a == b && c@ == d@,
        _ => false,
    }
}

fn copy_indices(indices: &Vec<usize>) -> (copy: Vec<usize>)
    ensures
        copy@ == indices@,
{
    let mut copy: Vec<usize> = Vec::new();
    let mut i: usize = 0;
    while i < indices.len()
        invariant
            i <= indices@.len(),
            copy@ == indices@.subrange(0, i as int),
        decreases indices@.len() - i,
    {
        copy.push(indices[i]);
        proof {
            assert(copy@ =~= indices@.subrange(0, i + 1));
        }
        i = i + 1;
    }
    proof {
        assert(indices@.subrange(0, indices@.len() as int) =~= indices@);
    }
    copy
}

impl WarningResponse {
    /// The report of a reachability warning.
    pub fn from_warning(warning: &ReachabilityWarning) -> (response: Self)
        ensures
            warning_response_of(response, *warning),
    {
        match warning {
            ReachabilityWarning::Unreachable { arm_index, covering_arm_indices } => WarningResponse::Unreachable {
                arm_index: *arm_index,
                covering_arm_indices: copy_indices(covering_arm_indices),
            },
            ReachabilityWarning::OnlyNull { arm_index, covering_arm_indices } => WarningResponse::OnlyNull {
                arm_index: *arm_index,
                covering_arm_indices: copy_indices(covering_arm_indices),
            },
        }
    }
}

/// Some warning says that arm `index` cannot be reached.
pub open spec fn unreachable_in(warnings: Seq<ReachabilityWarning>, index: int) -> bool {
    exists|k: int|
        0 <= k < warnings.len() && (#[trigger] warnings[k] matches ReachabilityWarning::Unreachable { arm_index, .. }
            && arm_index == index)
}

fn is_unreachable(warnings: &Vec<ReachabilityWarning>, index: usize) -> (unreachable: bool)
    ensures
        unreachable == unreachable_in(warnings@, index as int),
{
    let mut k: usize = 0;
    while k < warnings.len()
        invariant
            k <= warnings@.len(),
            forall|j: int|
                0 <= j < k ==> !(#[trigger] warnings@[j] matches ReachabilityWarning::Unreachable { arm_index, .. }
                    && arm_index == index),
        decreases warnings@.len() - k,
    {
        match &warnings[k] {
            ReachabilityWarning::Unreachable { arm_index, .. } => {
                if *arm_index == index {
                    return true;
                }
            },
            ReachabilityWarning::OnlyNull { .. } => {},
        }
        k = k + 1;
    }
    false
}

/// Whitespace: space, tab, line feed, vertical tab, form feed, carriage return.
pub open spec fn is_white(c: char) -> bool {
    c as u32 == 32 || (9 <= c as u32 && c as u32 <= 13)
}

/// The first position from `index` on that holds no whitespace.
pub open spec fn leading_end(s: Seq<char>, index: int) -> int
    decreases s.len() - index,
{
    if 0 <= index < s.len() && is_white(s[index]) {
        leading_end(s, index + 1)
    } else {
        index
    }
}

/// The end of `s` before `end` once trailing whitespace after `start` is dropped.
pub open spec fn trailing_start(s: Seq<char>, start: int, end: int) -> int
    decreases end - start,
{
    if start < end && is_white(s[end - 1]) {
        trailing_start(s, start, end - 1)
    } else {
        end
    }
}

/// `s` without leading and trailing whitespace.
pub open spec fn trimmed(s: Seq<char>) -> Seq<char> {
    let start = leading_end(s, 0);
    s.subrange(start, trailing_start(s, start, s.len() as int))
}

/// The text an arm's pattern spans, without surrounding whitespace; a span
/// that does not fit an ASCII source gives the empty text.
pub open spec fn arm_source(source: &str, span: Span) -> Seq<char> {
    if is_ascii(source) && span.start <= span.end && span.end <= source@.len() {
        trimmed(source@.subrange(span.start as int, span.end as int))
    } else {
        Seq::empty()
    }
}

proof fn lemma_leading_end(s: Seq<char>, index: int)
    requires
        0 <= index <= s.len(),
    ensures
        index <= leading_end(s, index) <= s.len(),
    decreases s.len() - index,
{
    if index < s.len() && is_white(s[index]) {
        lemma_leading_end(s, index + 1);
    }
}

proof fn lemma_trailing_start(s: Seq<char>, start: int, end: int)
    requires
        start <= end,
    ensures
        start <= trailing_start(s, start, end) <= end,
    decreases end - start,
{
    if start < end && is_white(s[end - 1]) {
        lemma_trailing_start(s, start, end - 1);
    }
}

fn is_white_char(c: char) -> (white: bool)
    ensures
        white == is_white(c),
{
    c == ' ' || c == '\t' || c == '\n' || c == '\u{b}' || c == '\u{c}' || c == '\r'
}

/// The text of the source that an arm spans, trimmed.
fn arm_source_text(source: &str, span: Span) -> (text: String)
    ensures
        text@ == arm_source(source, span),
{
    if !(source.is_ascii() && span.start <= span.end && span.end <= source.unicode_len()) {
        return String::new();
    }
    let piece = source.substring_ascii(span.start, span.end);
    let ghost s = piece@;
    let count = piece.unicode_len();
    let mut start: usize = 0;
    while start < count && is_white_char(piece.get_char(start))
        invariant
            s == piece@,
            count == s.len(),
            start <= count,
            leading_end(s, 0) == leading_end(s, start as int),
        decreases count - start,
    {
        start = start + 1;
    }
    let mut end: usize = count;
    while end > start && is_white_char(piece.get_char(end - 1))
        invariant
            s == piece@,
            count == s.len(),
            start <= end <= count,
            trailing_start(s, start as int, count as int) == trailing_start(s, start as int, end as int),
        decreases end - start,
    {
        end = end - 1;
    }
    let trimmed_piece = piece.substring_ascii(start, end);
    String::from_str(trimmed_piece)
}

/// The first error of a source text: in its syntax, in its declarations, or
/// in its match block.
pub open spec fn analyze_error(source: &str) -> Option<ErrorView> {
    match parse_spec(source) {
        Err(e) => Some(e),
        Ok(program) => match build_error(program.types) {
            Some(e) => Some(e),
            None => match_error(program.types, program.match_input),
        },
    }
}

/// `response` reports the analysis of `program`, read from `source`, in the
/// context `ctx` where its match block became `input` and was analysed into
/// `analysis`: the scrutinee's type as written, whether nothing is left
/// uncovered, each uncovered space and each arm's space as written, each
/// warning, each arm's index, span, text and reachability, and each
/// declaration.
pub open spec fn response_of(
    source: &str,
    program: ProgramView,
    response: SuccessResponse,
    ctx: DslContext,
    input: MatchInput<RuntimeType, RuntimeExtractor>,
    trees: Seq<LoweringTree>,
    analysis: MatchAnalysis<RuntimeType, RuntimeExtractor>,
) -> bool {
    let types = program.types;
    let t = resolve_type(types, program.match_input.scrutinee, Seq::empty())->Ok_0;
    &&& response.ok
    &&& ctx.wf()
    &&& match_lowered(ctx, types, program.match_input, t, input, trees)
    &&& analysis_ok(input, analysis)
    &&& ends_with_catch_all(input) ==> analysis.uncovered_spaces@.len() == 0
    &&& program.match_input.arms.len() > 0 && program.match_input.arms.last() is Wildcard ==> response.is_exhaustive
    &&& response.scrutinee@ == runtime_type_text(t)
    &&& response.is_exhaustive == (analysis.uncovered_spaces@.len() == 0)
    &&& response.uncovered@.len() == analysis.uncovered_spaces@.len()
    &&& forall|i: int|
        0 <= i < response.uncovered@.len() ==> ctx.valid_space(analysis.uncovered_spaces@[i]) && (
        #[trigger] response.uncovered@[i])@ == space_text(ctx, analysis.uncovered_spaces@[i])
    &&& response.warnings@.len() == analysis.reachability_warnings@.len()
    &&& forall|i: int|
        0 <= i < response.warnings@.len() ==> warning_response_of(
            #[trigger] response.warnings@[i],
            analysis.reachability_warnings@[i],
        )
    &&& response.arms@.len() == program.match_input.arms.len()
    &&& forall|i: int|
        0 <= i < response.arms@.len() ==> {
            let arm = #[trigger] response.arms@[i];
            &&& arm.index == i
            &&& arm.span == program.match_input.arms[i].span()
            &&& arm.source@ == arm_source(source, arm.span)
            &&& arm.space@ == space_text(ctx, input.arms@[i].pattern_space)
            &&& arm.reachable == !unreachable_in(analysis.reachability_warnings@, i)
        }
    &&& response.types@.len() == types.len()
    &&& forall|i: int| 0 <= i < types.len() ==> type_response_of(#[trigger] response.types@[i], types[i])
}

proof fn lemma_input_ok(
    ctx: DslContext,
    types: Seq<TypeDeclView>,
    block: crate::dsl::syntax::MatchBlockView,
    t: crate::dsl::types::RuntimeTypeView,
    input: MatchInput<RuntimeType, RuntimeExtractor>,
    trees: Seq<LoweringTree>,
)
    requires
        match_lowered(ctx, types, block, t, input, trees),
    ensures
        input_ok(ctx, input),
{
    lemma_lowered_alternatives_valid(ctx, types, block.arms, t, arm_spaces(input.arms@), trees);
    assert forall|i: int| 0 <= i < input.arms@.len() implies ctx.valid_space(#[trigger] input.arms@[i].pattern_space) by {
        assert(arm_spaces(input.arms@)[i] == input.arms@[i].pattern_space);
    }
}

proof fn lemma_match_lowered_extends(
    ctx: DslContext,
    prev: DslContext,
    types: Seq<TypeDeclView>,
    block: crate::dsl::syntax::MatchBlockView,
    t: crate::dsl::types::RuntimeTypeView,
    input: MatchInput<RuntimeType, RuntimeExtractor>,
    trees: Seq<LoweringTree>,
)
    requires
        ctx.extends(prev),
        match_lowered(prev, types, block, t, input, trees),
    ensures
        match_lowered(ctx, types, block, t, input, trees),
{
    lemma_lowered_alternatives_extends(ctx, prev, types, block.arms, t, arm_spaces(input.arms@), trees);
    let space = input.scrutinee_space;
    assert(ctx.nodes()[space@ - 1] == prev.nodes()[space@ - 1]);
    let k = prev.node(space)->Type_value_type;
    assert(prev.type_interner().valid_key(k));
}

/// Checks a program: parses it, checks its declarations, turns its match
/// block into spaces and analyses it, and reports the outcome.
pub fn analyze_source(source: &str) -> (result: Result<SuccessResponse, DslError>)
    ensures
        result is Ok ==> analyze_error(source) is None,
        result is Ok ==> parse_spec(source) is Ok,
        result matches Ok(response) ==> exists|
            ctx: DslContext,
            input: MatchInput<RuntimeType, RuntimeExtractor>,
            trees: Seq<LoweringTree>,
            analysis: MatchAnalysis<RuntimeType, RuntimeExtractor>,
        | #[trigger] response_of(source, parse_spec(source)->Ok_0, response, ctx, input, trees, analysis),
        result matches Err(e) ==> analyze_error(source) == Some(e.view()),
{
    let program = match parse(source) {
        Ok(program) => program,
        Err(e) => return Err(e),
    };
    let model = match Model::build(&program) {
        Ok(model) => model,
        Err(e) => return Err(e),
    };
    let mut context: DslContext = SpaceContext::with_interners(DedupInterner::fresh(), DedupInterner::fresh());
    let (scrutinee, match_input, trees) = match model.lower_match(&program, &mut context) {
        Ok(lowered) => lowered,
        Err(e) => return Err(e),
    };
    let ghost types = program.view().types;
    let ghost block = program.view().match_input;
    let ghost t = runtime_type_view(scrutinee);
    proof {
        lemma_input_ok(context, types, block, t, match_input, trees@);
        if block.arms.len() > 0 && block.arms.last() is Wildcard {
            let last = block.arms.len() - 1;
            lemma_wildcard_arm_is_scrutinee(context, types, block, t, match_input, trees@, last);
            assert(ends_with_catch_all(match_input));
        }
    }
    let ghost lowered_context = context;
    let mut engine = SpaceEngine::new(&model, &mut context);
    let analysis = engine.analyze_match(&match_input);
    let ctx = engine.context();
    proof {
        lemma_match_lowered_extends(*ctx, lowered_context, types, block, t, match_input, trees@);
        lemma_input_ok(*ctx, types, block, t, match_input, trees@);
    }
    let scrutinee_text = render_runtime_type(&scrutinee);
    let is_exhaustive = analysis.is_exhaustive();
    let mut uncovered: Vec<String> = Vec::new();
    let mut i: usize = 0;
    while i < analysis.uncovered_spaces.len()
        invariant
            ctx.wf(),
            i <= analysis.uncovered_spaces@.len(),
            forall|j: int| 0 <= j < analysis.uncovered_spaces@.len() ==> ctx.valid_space(#[trigger] analysis.uncovered_spaces@[j]),
            uncovered@.len() == i,
            forall|j: int| 0 <= j < i ==> (#[trigger] uncovered@[j])@ == space_text(*ctx, analysis.uncovered_spaces@[j]),
        decreases analysis.uncovered_spaces@.len() - i,
    {
        uncovered.push(format_space(ctx, analysis.uncovered_spaces[i]));
        i = i + 1;
    }
    let mut warnings: Vec<WarningResponse> = Vec::new();
    let mut k: usize = 0;
    while k < analysis.reachability_warnings.len()
        invariant
            k <= analysis.reachability_warnings@.len(),
            warnings@.len() == k,
            forall|j: int| 0 <= j < k ==> warning_response_of(#[trigger] warnings@[j], analysis.reachability_warnings@[j]),
        decreases analysis.reachability_warnings@.len() - k,
    {
        warnings.push(WarningResponse::from_warning(&analysis.reachability_warnings[k]));
        k = k + 1;
    }
    let patterns = &program.match_input.arms;
    proof {
        crate::dsl::syntax::lemma_patterns_view(patterns@);
    }
    let mut arms: Vec<ArmResponse> = Vec::new();
    let mut index: usize = 0;
    while index < patterns.len()
        invariant
            ctx.wf(),
            input_ok(*ctx, match_input),
            index <= patterns@.len(),
            match_input.arms@.len() == patterns@.len(),
            block.arms == crate::dsl::syntax::patterns_view(patterns@),
            block.arms.len() == patterns@.len(),
            forall|j: int| 0 <= j < patterns@.len() ==> #[trigger] block.arms[j] == crate::dsl::syntax::pattern_view(patterns@[j]),
            arms@.len() == index,
            forall|j: int|
                0 <= j < index ==> {
                    let arm = #[trigger] arms@[j];
                    &&& arm.index == j
                    &&& arm.span == block.arms[j].span()
                    &&& arm.source@ == arm_source(source, arm.span)
                    &&& arm.space@ == space_text(*ctx, match_input.arms@[j].pattern_space)
                    &&& arm.reachable == !unreachable_in(analysis.reachability_warnings@, j)
                },
        decreases patterns@.len() - index,
    {
        let span = patterns[index].span();
        let arm = ArmResponse {
            index,
            source: arm_source_text(source, span),
            span,
            space: format_space(ctx, match_input.arms[index].pattern_space),
            reachable: !is_unreachable(&analysis.reachability_warnings, index),
        };
        arms.push(arm);
        index = index + 1;
    }
    let types_response = response_types(&program.types);
    let response = SuccessResponse {
        ok: true,
        scrutinee: scrutinee_text,
        is_exhaustive,
        uncovered,
        warnings,
        arms,
        types: types_response,
    };
    proof {
        assert(parse_spec(source) matches Ok(v) && v == program.view());
        assert(parse_spec(source)->Ok_0 == program.view());
        assert(build_error(types) is None);
        assert(match_error(types, block) is None);
        assert(analyze_error(source) is None);
        assert(response_of(source, parse_spec(source)->Ok_0, response, *ctx, match_input, trees@, analysis));
        assert(exists|
            c: DslContext,
            i: MatchInput<RuntimeType, RuntimeExtractor>,
            t: Seq<LoweringTree>,
            a: MatchAnalysis<RuntimeType, RuntimeExtractor>,
        | #[trigger] response_of(source, parse_spec(source)->Ok_0, response, c, i, t, a));
    }
    let ghost kept = response;
    let result: Result<SuccessResponse, DslError> = Ok(response);
    proof {
        assert(result is Ok);
        assert(result->Ok_0 == kept);
        assert(result matches Ok(r) ==> exists|
            c: DslContext,
            i: MatchInput<RuntimeType, RuntimeExtractor>,
            t: Seq<LoweringTree>,
            a: MatchAnalysis<RuntimeType, RuntimeExtractor>,
        | #[trigger] response_of(source, parse_spec(source)->Ok_0, r, c, i, t, a));
    }
    result
}

} // verus!
