use vstd::prelude::*;
use vstd::string::*;

verus! {

/// A byte range of the source text.
#[derive(Clone, Copy, Debug, PartialEq, Eq, Structural)]
pub struct Span {
    pub start: usize,
    pub end: usize,
}

/// An error of the language, with the place in the source it points at.
#[derive(Debug)]
pub struct DslError {
    pub message: String,
    pub span: Option<Span>,
}

/// What an error says: its message and its span.
pub struct ErrorView {
    pub message: Seq<char>,
    pub span: Option<Span>,
}

impl DslError {
    pub open spec fn view(&self) -> ErrorView {
        ErrorView { message: self.message@, span: self.span }
    }

    /// An error at `span`.
    pub fn at(message: String, span: Span) -> (error: Self)
        ensures
            error.view() == (ErrorView { message: message@, span: Some(span) }),
    {
        DslError { message, span: Some(span) }
    }
}

/// The error that `message` at `span` stands for.
pub open spec fn error_at(message: Seq<char>, span: Span) -> ErrorView {
    ErrorView { message, span: Some(span) }
}

/// `left`, then `middle`, then `right`.
pub open spec fn quoted(left: Seq<char>, middle: Seq<char>, right: Seq<char>) -> Seq<char> {
    left + middle + right
}

/// A string made of `left`, `middle` and `right`.
pub fn quote(left: &str, middle: &str, right: &str) -> (text: String)
    ensures
        text@ == quoted(left@, middle@, right@),
{
    String::from_str(left).concat(middle).concat(right)
}

/// `String::from(char)` of std: a string of that one character.
#[verifier::external_body]
pub(crate) fn char_string(c: char) -> (text: String)
    ensures
        text@ == seq![c],
{
    String::from(c)
}

/// The decimal digits of `n`, most significant first.
pub open spec fn decimal(n: nat) -> Seq<char>
    decreases n,
{
    if n < 10 {
        seq![(48 + n) as char]
    } else {
        decimal(n / 10) + seq![(48 + n % 10) as char]
    }
}

/// `n` written in decimal.
pub fn decimal_string(n: usize) -> (text: String)
    ensures
        text@ == decimal(n as nat),
    decreases n,
{
    let digit = char_string((48u8 + (n % 10) as u8) as char);
    if n < 10 {
        digit
    } else {
        decimal_string(n / 10).concat(digit.as_str())
    }
}

/// A type expression: a name applied to type arguments.
#[derive(Debug, PartialEq, Eq)]
pub enum TypeExpr {
    Named(String, Vec<TypeExpr>, Span),
}

/// What a type expression says: its name, its arguments and its span.
pub enum TypeExprView {
    Named(Seq<char>, Seq<TypeExprView>, Span),
}

impl TypeExprView {
    pub open spec fn name(self) -> Seq<char> {
        let TypeExprView::Named(name, _, _) = self;
        name
    }

    pub open spec fn args(self) -> Seq<TypeExprView> {
        let TypeExprView::Named(_, args, _) = self;
        args
    }

    pub open spec fn span(self) -> Span {
        let TypeExprView::Named(_, _, span) = self;
        span
    }
}

pub open spec fn type_expr_view(expr: TypeExpr) -> TypeExprView
    decreases expr,
{
    match expr {
        TypeExpr::Named(name, args, span) => TypeExprView::Named(name@, type_exprs_view(args@), span),
    }
}

pub open spec fn type_exprs_view(exprs: Seq<TypeExpr>) -> Seq<TypeExprView>
    decreases exprs,
{
    if exprs.len() == 0 {
        Seq::empty()
    } else {
        type_exprs_view(exprs.subrange(0, exprs.len() - 1)).push(type_expr_view(exprs[exprs.len() - 1]))
    }
}

/// The view of a list of type expressions is the list of their views.
pub proof fn lemma_type_exprs_view(exprs: Seq<TypeExpr>)
    ensures
        type_exprs_view(exprs).len() == exprs.len(),
        forall|i: int| 0 <= i < exprs.len() ==> #[trigger] type_exprs_view(exprs)[i] == type_expr_view(exprs[i]),
    decreases exprs.len(),
{
    if exprs.len() > 0 {
        let front = exprs.subrange(0, exprs.len() - 1);
        lemma_type_exprs_view(front);
        assert forall|i: int| 0 <= i < exprs.len() implies #[trigger] type_exprs_view(exprs)[i] == type_expr_view(exprs[i]) by {
            if i < exprs.len() - 1 {
                assert(front[i] == exprs[i]);
            }
        }
    }
}

/// How a type expression is written: its name, followed by its arguments
/// between `<` and `>` when it has any.
pub open spec fn render_type_expr(expr: TypeExprView) -> Seq<char>
    decreases expr,
{
    let TypeExprView::Named(name, args, _) = expr;
    if args.len() == 0 {
        name
    } else {
        name + "<"@ + render_type_expr_list(args) + ">"@
    }
}

/// Type expressions written one after the other, separated by `, `.
pub open spec fn render_type_expr_list(exprs: Seq<TypeExprView>) -> Seq<char>
    decreases exprs,
{
    if exprs.len() == 0 {
        Seq::empty()
    } else if exprs.len() == 1 {
        render_type_expr(exprs[0])
    } else {
        render_type_expr_list(exprs.subrange(0, exprs.len() - 1)) + ", "@ + render_type_expr(
            exprs[exprs.len() - 1],
        )
    }
}

impl TypeExpr {
    /// The span of the expression.
    pub fn span(&self) -> (span: Span)
        ensures
            span == type_expr_view(*self).span(),
    {
        let TypeExpr::Named(_, _, span) = self;
        *span
    }

    /// How the expression is written.
    pub fn render(&self) -> (text: String)
        ensures
            text@ == render_type_expr(type_expr_view(*self)),
        decreases self,
    {
        let TypeExpr::Named(name, args, _) = self;
        proof {
            lemma_type_exprs_view(args@);
        }
        if args.len() == 0 {
            return name.clone();
        }
        let ghost views = type_exprs_view(args@);
        let mut list = String::new();
        let mut i: usize = 0;
        while i < args.len()
            invariant
                i <= args@.len(),
                self->1 == *args,
                views == type_exprs_view(args@),
                views.len() == args@.len(),
                forall|j: int| 0 <= j < args@.len() ==> #[trigger] views[j] == type_expr_view(args@[j]),
                list@ == render_type_expr_list(views.subrange(0, i as int)),
            decreases args@.len() - i,
        {
            proof {
                assert(views.subrange(0, i + 1).subrange(0, i as int) =~= views.subrange(0, i as int));
                assert(views.subrange(0, i + 1)[i as int] == views[i as int]);
            }
            let arg = args[i].render();
            if i > 0 {
                list = list.concat(", ");
            }
            list = list.concat(arg.as_str());
            i = i + 1;
        }
        proof {
            assert(views.subrange(0, views.len() as int) =~= views);
        }
        name.clone().concat("<").concat(list.as_str()).concat(">")
    }

    /// Whether the expression mentions `target` anywhere.
    pub fn references_type(&self, target: &String) -> (found: bool)
        ensures
            found == type_expr_mentions(type_expr_view(*self), target@),
        decreases self,
    {
        let TypeExpr::Named(name, args, _) = self;
        if *name == *target {
            return true;
        }
        proof {
            lemma_type_exprs_view(args@);
        }
        let ghost views = type_exprs_view(args@);
        let mut i: usize = 0;
        while i < args.len()
            invariant
                i <= args@.len(),
                self->1 == *args,
                views == type_exprs_view(args@),
                views.len() == args@.len(),
                forall|j: int| 0 <= j < args@.len() ==> #[trigger] views[j] == type_expr_view(args@[j]),
                !type_exprs_mention(views.subrange(0, i as int), target@),
            decreases args@.len() - i,
        {
            proof {
                assert(views.subrange(0, i + 1).subrange(0, i as int) =~= views.subrange(0, i as int));
            }
            if args[i].references_type(target) {
                proof {
                    lemma_mention_in_prefix(views, i as int, target@);
                }
                return true;
            }
            i = i + 1;
        }
        proof {
            assert(views.subrange(0, views.len() as int) =~= views);
        }
        false
    }
}

/// Type expressions written one after the other, separated by `, `.
pub fn render_type_exprs(exprs: &Vec<TypeExpr>) -> (text: String)
    ensures
        text@ == render_type_expr_list(type_exprs_view(exprs@)),
{
    proof {
        lemma_type_exprs_view(exprs@);
    }
    let ghost views = type_exprs_view(exprs@);
    let mut list = String::new();
    let mut i: usize = 0;
    while i < exprs.len()
        invariant
            i <= exprs@.len(),
            views == type_exprs_view(exprs@),
            views.len() == exprs@.len(),
            forall|j: int| 0 <= j < exprs@.len() ==> #[trigger] views[j] == type_expr_view(exprs@[j]),
            list@ == render_type_expr_list(views.subrange(0, i as int)),
        decreases exprs@.len() - i,
    {
        proof {
            assert(views.subrange(0, i + 1).subrange(0, i as int) =~= views.subrange(0, i as int));
            assert(views.subrange(0, i + 1)[i as int] == views[i as int]);
        }
        let expr = exprs[i].render();
        if i > 0 {
            list = list.concat(", ");
        }
        list = list.concat(expr.as_str());
        i = i + 1;
    }
    proof {
        assert(views.subrange(0, views.len() as int) =~= views);
    }
    list
}

/// Whether `target` is the name of `expr` or of a type expression inside it.
pub open spec fn type_expr_mentions(expr: TypeExprView, target: Seq<char>) -> bool
    decreases expr,
{
    let TypeExprView::Named(name, args, _) = expr;
    name == target || type_exprs_mention(args, target)
}

/// Whether some expression of `exprs` mentions `target`.
pub open spec fn type_exprs_mention(exprs: Seq<TypeExprView>, target: Seq<char>) -> bool
    decreases exprs,
{
    if exprs.len() == 0 {
        false
    } else {
        type_exprs_mention(exprs.subrange(0, exprs.len() - 1), target) || type_expr_mentions(
            exprs[exprs.len() - 1],
            target,
        )
    }
}

proof fn lemma_mention_in_prefix(exprs: Seq<TypeExprView>, i: int, target: Seq<char>)
    requires
        0 <= i < exprs.len(),
        type_expr_mentions(exprs[i], target),
    ensures
        type_exprs_mention(exprs, target),
    decreases exprs.len(),
{
    if i < exprs.len() - 1 {
        let front = exprs.subrange(0, exprs.len() - 1);
        assert(front[i] == exprs[i]);
        lemma_mention_in_prefix(front, i, target);
    }
}

/// A pattern of a match arm.
#[derive(Debug, PartialEq, Eq)]
pub enum Pattern {
    Wildcard { span: Span },
    Or { alternatives: Vec<Pattern>, span: Span },
    Constructor { name: String, args: Vec<Pattern>, span: Span },
}

/// What a pattern says.
pub enum PatternView {
    Wildcard { span: Span },
    Or { alternatives: Seq<PatternView>, span: Span },
    Constructor { name: Seq<char>, args: Seq<PatternView>, span: Span },
}

impl PatternView {
    pub open spec fn span(self) -> Span {
        match self {
            PatternView::Wildcard { span } => span,
            PatternView::Or { span, .. } => span,
            PatternView::Constructor { span, .. } => span,
        }
    }
}

pub open spec fn pattern_view(pattern: Pattern) -> PatternView
    decreases pattern,
{
    match pattern {
        Pattern::Wildcard { span } => PatternView::Wildcard { span },
        Pattern::Or { alternatives, span } => PatternView::Or {
            alternatives: patterns_view(alternatives@),
            span,
        },
        Pattern::Constructor { name, args, span } => PatternView::Constructor {
            name: name@,
            args: patterns_view(args@),
            span,
        },
    }
}

pub open spec fn patterns_view(patterns: Seq<Pattern>) -> Seq<PatternView>
    decreases patterns,
{
    if patterns.len() == 0 {
        Seq::empty()
    } else {
        patterns_view(patterns.subrange(0, patterns.len() - 1)).push(
            pattern_view(patterns[patterns.len() - 1]),
        )
    }
}

/// The view of a list of patterns is the list of their views.
pub proof fn lemma_patterns_view(patterns: Seq<Pattern>)
    ensures
        patterns_view(patterns).len() == patterns.len(),
        forall|i: int| 0 <= i < patterns.len() ==> #[trigger] patterns_view(patterns)[i] == pattern_view(patterns[i]),
    decreases patterns.len(),
{
    if patterns.len() > 0 {
        let front = patterns.subrange(0, patterns.len() - 1);
        lemma_patterns_view(front);
        assert forall|i: int| 0 <= i < patterns.len() implies #[trigger] patterns_view(patterns)[i] == pattern_view(patterns[i]) by {
            if i < patterns.len() - 1 {
                assert(front[i] == patterns[i]);
            }
        }
    }
}

impl Pattern {
    /// The span of the pattern.
    pub fn span(&self) -> (span: Span)
        ensures
            span == pattern_view(*self).span(),
    {
        match self {
            Pattern::Wildcard { span } => *span,
            Pattern::Or { span, .. } => *span,
            Pattern::Constructor { span, .. } => *span,
        }
    }
}

/// A constructor of a type declaration, with the types of its fields.
#[derive(Debug, PartialEq, Eq)]
pub struct ConstructorDecl {
    pub name: String,
    pub fields: Vec<TypeExpr>,
    pub span: Span,
}

pub struct ConstructorDeclView {
    pub name: Seq<char>,
    pub fields: Seq<TypeExprView>,
    pub span: Span,
}

impl ConstructorDecl {
    pub open spec fn view(&self) -> ConstructorDeclView {
        ConstructorDeclView { name: self.name@, fields: type_exprs_view(self.fields@), span: self.span }
    }
}

/// A type declaration: a name, type parameters and constructors.
#[derive(Debug, PartialEq, Eq)]
pub struct TypeDecl {
    pub name: String,
    pub params: Vec<String>,
    pub constructors: Vec<ConstructorDecl>,
    pub span: Span,
}

pub struct TypeDeclView {
    pub name: Seq<char>,
    pub params: Seq<Seq<char>>,
    pub constructors: Seq<ConstructorDeclView>,
    pub span: Span,
}

/// The characters of each string.
pub open spec fn strings_view(strings: Seq<String>) -> Seq<Seq<char>> {
    strings.map_values(|s: String| s@)
}

impl TypeDecl {
    pub open spec fn view(&self) -> TypeDeclView {
        TypeDeclView {
            name: self.name@,
            params: strings_view(self.params@),
            constructors: self.constructors@.map_values(|c: ConstructorDecl| c.view()),
            span: self.span,
        }
    }
}

/// The match block: the scrutinee's type and the arms' patterns.
#[derive(Debug, PartialEq, Eq)]
pub struct MatchBlock {
    pub scrutinee: TypeExpr,
    pub arms: Vec<Pattern>,
}

pub struct MatchBlockView {
    pub scrutinee: TypeExprView,
    pub arms: Seq<PatternView>,
}

impl MatchBlock {
    pub open spec fn view(&self) -> MatchBlockView {
        MatchBlockView { scrutinee: type_expr_view(self.scrutinee), arms: patterns_view(self.arms@) }
    }
}

/// A whole program: type declarations, then one match block.
#[derive(Debug, PartialEq, Eq)]
pub struct Program {
    pub types: Vec<TypeDecl>,
    pub match_input: MatchBlock,
}

pub struct ProgramView {
    pub types: Seq<TypeDeclView>,
    pub match_input: MatchBlockView,
}

impl Program {
    pub open spec fn view(&self) -> ProgramView {
        ProgramView {
            types: self.types@.map_values(|t: TypeDecl| t.view()),
            match_input: self.match_input.view(),
        }
    }
}

/// The kinds of tokens.
#[derive(Debug, PartialEq, Eq)]
pub enum TokenKind {
    Ident(String),
    KeywordType,
    KeywordMatch,
    Pipe,
    Equal,
    Colon,
    Comma,
    LParen,
    RParen,
    Less,
    Greater,
    Underscore,
    Eof,
}

pub enum TokenKindView {
    Ident(Seq<char>),
    KeywordType,
    KeywordMatch,
    Pipe,
    Equal,
    Colon,
    Comma,
    LParen,
    RParen,
    Less,
    Greater,
    Underscore,
    Eof,
}

impl TokenKind {
    pub open spec fn view(&self) -> TokenKindView {
        match self {
            TokenKind::Ident(name) => TokenKindView::Ident(name@),
            TokenKind::KeywordType => TokenKindView::KeywordType,
            TokenKind::KeywordMatch => TokenKindView::KeywordMatch,
            TokenKind::Pipe => TokenKindView::Pipe,
            TokenKind::Equal => TokenKindView::Equal,
            TokenKind::Colon => TokenKindView::Colon,
            TokenKind::Comma => TokenKindView::Comma,
            TokenKind::LParen => TokenKindView::LParen,
            TokenKind::RParen => TokenKindView::RParen,
            TokenKind::Less => TokenKindView::Less,
            TokenKind::Greater => TokenKindView::Greater,
            TokenKind::Underscore => TokenKindView::Underscore,
            TokenKind::Eof => TokenKindView::Eof,
        }
    }
}

/// A token and its span.
#[derive(Debug, PartialEq, Eq)]
pub struct Token {
    pub kind: TokenKind,
    pub span: Span,
}

pub struct TokenView {
    pub kind: TokenKindView,
    pub span: Span,
}

impl Token {
    pub open spec fn view(&self) -> TokenView {
        TokenView { kind: self.kind.view(), span: self.span }
    }
}

/// The views of the tokens.
pub open spec fn tokens_view(tokens: Seq<Token>) -> Seq<TokenView> {
    tokens.map_values(|t: Token| t.view())
}

} // verus!
