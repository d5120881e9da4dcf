use vstd::prelude::*;
use vstd::string::*;

use crate::dsl::grammar::{
    alternatives_at, arms_at, at, constructor_decl_at, constructors_at, expect, expect_ident, fields_at,
    kind_tag, match_block_at, params_at, pattern_args_at, pattern_at, primary_pattern_at, program_of,
    type_args_at, type_decl_at, type_decls_at, type_expr_at,
};
use crate::dsl::lexer::{lemma_lex_ends_with_eof, lex, lex_spec};
use crate::dsl::syntax::{
    lemma_patterns_view, lemma_type_exprs_view, pattern_view, patterns_view, quote, strings_view,
    tokens_view, type_expr_view, type_exprs_view, ConstructorDecl, DslError, ErrorView, MatchBlock, Pattern,
    Program, ProgramView, Span, Token, TokenKind, TokenKindView, TokenView, TypeDecl, TypeExpr,
};

verus! {

/// The program that a source text spells, or the first error in it.
pub open spec fn parse_spec(source: &str) -> Result<ProgramView, ErrorView> {
    match lex_spec(source) {
        Err(e) => Err(e),
        Ok(toks) => program_of(toks),
    }
}

/// Reads a source text into a program.
pub fn parse(source: &str) -> (program: Result<Program, DslError>)
    ensures
        match (program, parse_spec(source)) {
            (Ok(p), Ok(v)) => p.view() == v,
            (Err(e), Err(v)) => e.view() == v,
            _ => false,
        },
{
    let tokens = match lex(source) {
        Ok(tokens) => tokens,
        Err(error) => return Err(error),
    };
    proof {
        lemma_lex_ends_with_eof(source.spec_bytes(), 0);
    }
    let mut parser = Parser::new(tokens);
    parser.parse_program()
}

proof fn lemma_type_exprs_view_push(exprs: Seq<TypeExpr>, expr: TypeExpr)
    ensures
        type_exprs_view(exprs.push(expr)) == type_exprs_view(exprs).push(type_expr_view(expr)),
{
    assert(exprs.push(expr).subrange(0, exprs.len() as int) =~= exprs);
}

proof fn lemma_patterns_view_push(patterns: Seq<Pattern>, pattern: Pattern)
    ensures
        patterns_view(patterns.push(pattern)) == patterns_view(patterns).push(pattern_view(pattern)),
{
    assert(patterns.push(pattern).subrange(0, patterns.len() as int) =~= patterns);
}

fn token_tag(kind: &TokenKind) -> (tag: u8)
    ensures
        tag == kind_tag(kind.view()),
{
    match kind {
        TokenKind::Ident(_) => 0,
        TokenKind::KeywordType => 1,
        TokenKind::KeywordMatch => 2,
        TokenKind::Pipe => 3,
        TokenKind::Equal => 4,
        TokenKind::Colon => 5,
        TokenKind::Comma => 6,
        TokenKind::LParen => 7,
        TokenKind::RParen => 8,
        TokenKind::Less => 9,
        TokenKind::Greater => 10,
        TokenKind::Underscore => 11,
        TokenKind::Eof => 12,
    }
}

/// A recursive-descent reader over the tokens of a source text.
struct Parser {
    tokens: Vec<Token>,
    position: usize,
}

/// What a parse step gives, against what the grammar says it gives.
spec fn step_agrees<T, V>(
    result: Result<T, DslError>,
    expected: Result<(V, int), ErrorView>,
    view: spec_fn(T) -> V,
    end: int,
) -> bool {
    match (result, expected) {
        (Ok(value), Ok((v, p))) => view(value) == v && end == p,
        (Err(e), Err(v)) => e.view() == v,
        _ => false,
    }
}

impl Parser {
    spec fn toks(&self) -> Seq<TokenView> {
        tokens_view(self.tokens@)
    }

    spec fn pos(&self) -> int {
        self.position as int
    }

    /// The position is on a token, and the last token ends the input.
    spec fn ok(&self) -> bool {
        &&& 0 <= self.pos() < self.toks().len()
        &&& self.toks()[self.toks().len() - 1].kind is Eof
    }

    /// `self` reads the same tokens as `prev`.
    spec fn same_tokens(&self, prev: &Self) -> bool {
        self.tokens@ == prev.tokens@
    }

    fn new(tokens: Vec<Token>) -> (parser: Self)
        ensures
            parser.tokens@ == tokens@,
            parser.position == 0,
    {
        Parser { tokens, position: 0 }
    }

    fn current_span(&self) -> (span: Span)
        requires
            self.ok(),
        ensures
            span == self.toks()[self.pos()].span,
    {
        self.tokens[self.position].span
    }

    fn at_kind(&self, kind: &TokenKind) -> (found: bool)
        requires
            self.ok(),
        ensures
            found == at(self.toks(), self.pos(), kind.view()),
    {
        token_tag(&self.tokens[self.position].kind) == token_tag(kind)
    }

    fn consume_kind(&mut self, kind: &TokenKind) -> (span: Option<Span>)
        requires
            old(self).ok(),
            !(kind.view() is Eof),
        ensures
            final(self).ok(),
            final(self).same_tokens(old(self)),
            at(old(self).toks(), old(self).pos(), kind.view()) ==> span == Some(old(self).toks()[old(self).pos()].span)
                && final(self).pos() == old(self).pos() + 1,
            !at(old(self).toks(), old(self).pos(), kind.view()) ==> span is None && final(self).pos() == old(self).pos(),
    {
        if self.at_kind(kind) {
            let span = self.tokens[self.position].span;
            proof {
                assert(!(self.toks()[self.pos()].kind is Eof));
                assert(self.pos() != self.toks().len() - 1);
                assert(self.tokens@.len() == self.toks().len());
            }
            let count = self.tokens.len();
            assert(self.position + 1 < count);
            self.position = self.position + 1;
            Some(span)
        } else {
            None
        }
    }

    fn expect_kind(&mut self, kind: &TokenKind, message: &str) -> (span: Result<Span, DslError>)
        requires
            old(self).ok(),
            !(kind.view() is Eof),
        ensures
            final(self).ok(),
            final(self).same_tokens(old(self)),
            step_agrees(span, expect(old(self).toks(), old(self).pos(), kind.view(), message@), |s: Span| s, final(self).pos()),
    {
        match self.consume_kind(kind) {
            Some(span) => Ok(span),
            None => Err(DslError::at(String::from_str(message), self.current_span())),
        }
    }

    fn expect_ident(&mut self, message: &str) -> (ident: Result<(String, Span), DslError>)
        requires
            old(self).ok(),
        ensures
            final(self).ok(),
            final(self).same_tokens(old(self)),
            match (ident, expect_ident(old(self).toks(), old(self).pos(), message@)) {
                (Ok((name, span)), Ok((n, s, p))) => name@ == n && span == s && final(self).pos() == p,
                (Err(e), Err(v)) => e.view() == v,
                _ => false,
            },
    {
        let span = self.tokens[self.position].span;
        match &self.tokens[self.position].kind {
            TokenKind::Ident(name) => {
                let name = name.clone();
                proof {
                    assert(self.toks()[self.pos()].kind is Ident);
                    assert(self.pos() != self.toks().len() - 1);
                    assert(self.tokens@.len() == self.toks().len());
                }
                let count = self.tokens.len();
                assert(self.position + 1 < count);
                self.position = self.position + 1;
                Ok((name, span))
            },
            _ => Err(DslError::at(String::from_str(message), span)),
        }
    }

    #[verifier::loop_isolation(false)]
    fn parse_type_expr(&mut self) -> (expr: Result<TypeExpr, DslError>)
        requires
            old(self).ok(),
        ensures
            final(self).ok(),
            final(self).same_tokens(old(self)),
            step_agrees(expr, type_expr_at(old(self).toks(), old(self).pos()), |e: TypeExpr| type_expr_view(e), final(self).pos()),
            expr is Ok ==> final(self).pos() > old(self).pos(),
        decreases old(self).tokens@.len() - old(self).position, 0int,
    {
        let ghost toks = self.toks();
        let (name, name_span) = match self.expect_ident("Expected a type expression") {
            Ok(found) => found,
            Err(e) => return Err(e),
        };
        let mut span = name_span;
        if self.consume_kind(&TokenKind::Less).is_none() {
            return Ok(TypeExpr::Named(name, Vec::new(), span));
        }
        if self.at_kind(&TokenKind::Greater) {
            return Err(DslError::at(String::from_str("Expected a type argument"), self.current_span()));
        }
        let ghost p2 = self.pos();
        let mut args: Vec<TypeExpr> = Vec::new();
        loop
            invariant
                self.ok(),
                self.same_tokens(old(self)),
                toks == self.toks(),
                self.pos() > old(self).pos(),
                span.start == name_span.start,
                type_args_at(toks, p2, Seq::empty()) == type_args_at(toks, self.pos(), type_exprs_view(args@)),
            decreases self.tokens@.len() - self.position,
        {
            let ghost before = self.pos();
            let arg = match self.parse_type_expr() {
                Ok(arg) => arg,
                Err(e) => return Err(e),
            };
            proof {
                lemma_type_exprs_view_push(args@, arg);
            }
            args.push(arg);
            if self.consume_kind(&TokenKind::Comma).is_some() {
                continue;
            }
            let close = match self.expect_kind(&TokenKind::Greater, "Expected `>`") {
                Ok(close) => close,
                Err(e) => return Err(e),
            };
            span.end = close.end;
            return Ok(TypeExpr::Named(name, args, span));
        }
    }

    #[verifier::loop_isolation(false)]
    fn parse_primary_pattern(&mut self) -> (pattern: Result<Pattern, DslError>)
        requires
            old(self).ok(),
        ensures
            final(self).ok(),
            final(self).same_tokens(old(self)),
            step_agrees(pattern, primary_pattern_at(old(self).toks(), old(self).pos()), |p: Pattern| pattern_view(p), final(self).pos()),
            pattern is Ok ==> final(self).pos() > old(self).pos(),
        decreases old(self).tokens@.len() - old(self).position, 0int,
    {
        let ghost toks = self.toks();
        if let Some(span) = self.consume_kind(&TokenKind::Underscore) {
            return Ok(Pattern::Wildcard { span });
        }
        let (name, name_span) = match self.expect_ident("Expected a pattern") {
            Ok(found) => found,
            Err(e) => return Err(e),
        };
        let mut span = name_span;
        if self.consume_kind(&TokenKind::LParen).is_none() {
            return Ok(Pattern::Constructor { name, args: Vec::new(), span });
        }
        let mut args: Vec<Pattern> = Vec::new();
        if self.at_kind(&TokenKind::RParen) {
            let close = match self.expect_kind(&TokenKind::RParen, "Expected `)`") {
                Ok(close) => close,
                Err(e) => return Err(e),
            };
            span.end = close.end;
            return Ok(Pattern::Constructor { name, args, span });
        }
        let ghost p2 = self.pos();
        loop
            invariant
                self.ok(),
                self.same_tokens(old(self)),
                toks == self.toks(),
                self.pos() > old(self).pos(),
                span.start == name_span.start,
                pattern_args_at(toks, p2, Seq::empty()) == pattern_args_at(toks, self.pos(), patterns_view(args@)),
            decreases self.tokens@.len() - self.position,
        {
            let arg = match self.parse_pattern() {
                Ok(arg) => arg,
                Err(e) => return Err(e),
            };
            proof {
                lemma_patterns_view_push(args@, arg);
            }
            args.push(arg);
            if self.consume_kind(&TokenKind::Comma).is_some() {
                continue;
            }
            let close = match self.expect_kind(&TokenKind::RParen, "Expected `)`") {
                Ok(close) => close,
                Err(e) => return Err(e),
            };
            span.end = close.end;
            return Ok(Pattern::Constructor { name, args, span });
        }
    }

    #[verifier::loop_isolation(false)]
    fn parse_pattern(&mut self) -> (pattern: Result<Pattern, DslError>)
        requires
            old(self).ok(),
        ensures
            final(self).ok(),
            final(self).same_tokens(old(self)),
            step_agrees(pattern, pattern_at(old(self).toks(), old(self).pos()), |p: Pattern| pattern_view(p), final(self).pos()),
            pattern is Ok ==> final(self).pos() > old(self).pos(),
        decreases old(self).tokens@.len() - old(self).position, 1int,
    {
        let ghost toks = self.toks();
        let first = match self.parse_primary_pattern() {
            Ok(first) => first,
            Err(e) => return Err(e),
        };
        let ghost p1 = self.pos();
        let ghost first_view = pattern_view(first);
        let mut alternatives: Vec<Pattern> = Vec::new();
        alternatives.push(first);
        proof {
            lemma_patterns_view_push(Seq::empty(), first);
            assert(Seq::<Pattern>::empty().push(first) =~= alternatives@);
            assert(patterns_view(Seq::<Pattern>::empty()) =~= Seq::<crate::dsl::syntax::PatternView>::empty());
            assert(patterns_view(alternatives@) =~= seq![first_view]);
        }
        loop
            invariant
                self.ok(),
                self.same_tokens(old(self)),
                toks == self.toks(),
                self.pos() > old(self).pos(),
                alternatives@.len() >= 1,
                alternatives_at(toks, p1, seq![first_view]) == alternatives_at(toks, self.pos(), patterns_view(alternatives@)),
            decreases self.tokens@.len() - self.position,
        {
            if self.consume_kind(&TokenKind::Pipe).is_none() {
                break;
            }
            let alternative = match self.parse_primary_pattern() {
                Ok(alternative) => alternative,
                Err(e) => return Err(e),
            };
            proof {
                lemma_patterns_view_push(alternatives@, alternative);
            }
            alternatives.push(alternative);
        }
        proof {
            lemma_patterns_view(alternatives@);
        }
        if alternatives.len() == 1 {
            let only = alternatives.pop().unwrap();
            return Ok(only);
        }
        let start = alternatives[0].span().start;
        let end = alternatives[alternatives.len() - 1].span().end;
        Ok(Pattern::Or { alternatives, span: Span { start, end } })
    }

    #[verifier::loop_isolation(false)]
    fn parse_constructor_decl(&mut self) -> (constructor: Result<ConstructorDecl, DslError>)
        requires
            old(self).ok(),
        ensures
            final(self).ok(),
            final(self).same_tokens(old(self)),
            step_agrees(constructor, constructor_decl_at(old(self).toks(), old(self).pos()), |c: ConstructorDecl| c.view(), final(self).pos()),
            constructor is Ok ==> final(self).pos() > old(self).pos(),
    {
        let ghost toks = self.toks();
        let (name, name_span) = match self.expect_ident("Expected a constructor name") {
            Ok(found) => found,
            Err(e) => return Err(e),
        };
        let mut span = name_span;
        if self.consume_kind(&TokenKind::LParen).is_none() {
            return Ok(ConstructorDecl { name, fields: Vec::new(), span });
        }
        let mut fields: Vec<TypeExpr> = Vec::new();
        if self.at_kind(&TokenKind::RParen) {
            let close = match self.expect_kind(&TokenKind::RParen, "Expected `)`") {
                Ok(close) => close,
                Err(e) => return Err(e),
            };
            span.end = close.end;
            return Ok(ConstructorDecl { name, fields, span });
        }
        let ghost p2 = self.pos();
        loop
            invariant
                self.ok(),
                self.same_tokens(old(self)),
                toks == self.toks(),
                self.pos() > old(self).pos(),
                span.start == name_span.start,
                fields_at(toks, p2, Seq::empty()) == fields_at(toks, self.pos(), type_exprs_view(fields@)),
            decreases self.tokens@.len() - self.position,
        {
            let field = match self.parse_type_expr() {
                Ok(field) => field,
                Err(e) => return Err(e),
            };
            proof {
                lemma_type_exprs_view_push(fields@, field);
            }
            fields.push(field);
            if self.consume_kind(&TokenKind::Comma).is_some() {
                continue;
            }
            let close = match self.expect_kind(&TokenKind::RParen, "Expected `)`") {
                Ok(close) => close,
                Err(e) => return Err(e),
            };
            span.end = close.end;
            return Ok(ConstructorDecl { name, fields, span });
        }
    }

    #[verifier::loop_isolation(false)]
    fn parse_type_params(&mut self) -> (params: Result<Vec<String>, DslError>)
        requires
            old(self).ok(),
        ensures
            final(self).ok(),
            final(self).same_tokens(old(self)),
            step_agrees(params, params_at(old(self).toks(), old(self).pos(), Seq::empty()), |p: Vec<String>| strings_view(p@), final(self).pos()),
            params is Ok ==> final(self).pos() > old(self).pos(),
    {
        let ghost toks = self.toks();
        let ghost start = self.pos();
        let mut params: Vec<String> = Vec::new();
        proof {
            assert(strings_view(params@) =~= Seq::<Seq<char>>::empty());
        }
        loop
            invariant
                self.ok(),
                self.same_tokens(old(self)),
                toks == self.toks(),
                self.pos() >= old(self).pos(),
                params_at(toks, start, Seq::empty()) == params_at(toks, self.pos(), strings_view(params@)),
            decreases self.tokens@.len() - self.position,
        {
            let (param, span) = match self.expect_ident("Expected a type parameter") {
                Ok(found) => found,
                Err(e) => return Err(e),
            };
            if contains_string(&params, &param) {
                return Err(DslError::at(quote("Duplicate type parameter `", param.as_str(), "`"), span));
            }
            proof {
                assert(strings_view(params@.push(param)) =~= strings_view(params@).push(param@));
            }
            params.push(param);
            if self.consume_kind(&TokenKind::Comma).is_some() {
                continue;
            }
            match self.expect_kind(&TokenKind::Greater, "Expected `>`") {
                Ok(_) => {},
                Err(e) => return Err(e),
            }
            return Ok(params);
        }
    }

    #[verifier::loop_isolation(false)]
    fn parse_type_decl(&mut self) -> (decl: Result<TypeDecl, DslError>)
        requires
            old(self).ok(),
        ensures
            final(self).ok(),
            final(self).same_tokens(old(self)),
            step_agrees(decl, type_decl_at(old(self).toks(), old(self).pos()), |d: TypeDecl| d.view(), final(self).pos()),
            decl is Ok ==> final(self).pos() > old(self).pos(),
    {
        let ghost toks = self.toks();
        let start = match self.expect_kind(&TokenKind::KeywordType, "Expected `type`") {
            Ok(span) => span.start,
            Err(e) => return Err(e),
        };
        let (name, _) = match self.expect_ident("Expected a type name") {
            Ok(found) => found,
            Err(e) => return Err(e),
        };
        let params = if self.consume_kind(&TokenKind::Less).is_some() {
            match self.parse_type_params() {
                Ok(params) => params,
                Err(e) => return Err(e),
            }
        } else {
            let none: Vec<String> = Vec::new();
            proof {
                assert(strings_view(none@) =~= Seq::<Seq<char>>::empty());
            }
            none
        };
        match self.expect_kind(&TokenKind::Equal, "Expected `=`") {
            Ok(_) => {},
            Err(e) => return Err(e),
        }
        let ghost p4 = self.pos();
        let mut constructors: Vec<ConstructorDecl> = Vec::new();
        proof {
            assert(constructors@.map_values(|c: ConstructorDecl| c.view()) =~= Seq::<crate::dsl::syntax::ConstructorDeclView>::empty());
        }
        loop
            invariant
                self.ok(),
                self.same_tokens(old(self)),
                toks == self.toks(),
                self.pos() > old(self).pos(),
                self.pos() >= p4,
                constructors_at(toks, p4, Seq::empty()) == constructors_at(
                    toks,
                    self.pos(),
                    constructors@.map_values(|c: ConstructorDecl| c.view()),
                ),
            decreases self.tokens@.len() - self.position,
        {
            if self.consume_kind(&TokenKind::Pipe).is_none() {
                break;
            }
            let constructor = match self.parse_constructor_decl() {
                Ok(constructor) => constructor,
                Err(e) => return Err(e),
            };
            proof {
                assert(constructors@.push(constructor).map_values(|c: ConstructorDecl| c.view())
                    =~= constructors@.map_values(|c: ConstructorDecl| c.view()).push(constructor.view()));
            }
            constructors.push(constructor);
        }
        if constructors.len() == 0 {
            return Err(
                DslError::at(
                    quote("Type `", name.as_str(), "` must declare at least one constructor"),
                    self.current_span(),
                ),
            );
        }
        let end = constructors[constructors.len() - 1].span.end;
        proof {
            let views = constructors@.map_values(|c: ConstructorDecl| c.view());
            assert(views[views.len() - 1] == constructors@[constructors@.len() - 1].view());
        }
        Ok(TypeDecl { name, params, constructors, span: Span { start, end } })
    }

    #[verifier::loop_isolation(false)]
    fn parse_match_block(&mut self) -> (block: Result<MatchBlock, DslError>)
        requires
            old(self).ok(),
        ensures
            final(self).ok(),
            final(self).same_tokens(old(self)),
            step_agrees(block, match_block_at(old(self).toks(), old(self).pos()), |b: MatchBlock| b.view(), final(self).pos()),
    {
        let ghost toks = self.toks();
        match self.expect_kind(&TokenKind::KeywordMatch, "Expected `match`") {
            Ok(_) => {},
            Err(e) => return Err(e),
        }
        let scrutinee = match self.parse_type_expr() {
            Ok(scrutinee) => scrutinee,
            Err(e) => return Err(e),
        };
        match self.expect_kind(&TokenKind::Colon, "Expected `:`") {
            Ok(_) => {},
            Err(e) => return Err(e),
        }
        let ghost p3 = self.pos();
        let mut arms: Vec<Pattern> = Vec::new();
        proof {
            assert(patterns_view(arms@) =~= Seq::<crate::dsl::syntax::PatternView>::empty());
        }
        while !self.at_kind(&TokenKind::Eof)
            invariant
                self.ok(),
                self.same_tokens(old(self)),
                toks == self.toks(),
                arms_at(toks, p3, Seq::empty()) == arms_at(toks, self.pos(), patterns_view(arms@)),
            decreases self.tokens@.len() - self.position,
        {
            if self.at_kind(&TokenKind::KeywordMatch) {
                return Err(DslError::at(String::from_str("Only one match block is supported"), self.current_span()));
            }
            if self.at_kind(&TokenKind::KeywordType) {
                return Err(
                    DslError::at(
                        String::from_str("Type declarations must appear before the match block"),
                        self.current_span(),
                    ),
                );
            }
            let arm = match self.parse_pattern() {
                Ok(arm) => arm,
                Err(e) => return Err(e),
            };
            proof {
                lemma_patterns_view_push(arms@, arm);
            }
            arms.push(arm);
        }
        Ok(MatchBlock { scrutinee, arms })
    }

    #[verifier::loop_isolation(false)]
    fn parse_program(&mut self) -> (program: Result<Program, DslError>)
        requires
            old(self).ok(),
            old(self).pos() == 0,
        ensures
            match (program, program_of(old(self).toks())) {
                (Ok(p), Ok(v)) => p.view() == v,
                (Err(e), Err(v)) => e.view() == v,
                _ => false,
            },
    {
        let ghost toks = self.toks();
        let mut types: Vec<TypeDecl> = Vec::new();
        proof {
            assert(types@.map_values(|t: TypeDecl| t.view()) =~= Seq::<crate::dsl::syntax::TypeDeclView>::empty());
        }
        while self.at_kind(&TokenKind::KeywordType)
            invariant
                self.ok(),
                self.same_tokens(old(self)),
                toks == self.toks(),
                type_decls_at(toks, 0, Seq::empty()) == type_decls_at(
                    toks,
                    self.pos(),
                    types@.map_values(|t: TypeDecl| t.view()),
                ),
            decreases self.tokens@.len() - self.position,
        {
            let decl = match self.parse_type_decl() {
                Ok(decl) => decl,
                Err(e) => return Err(e),
            };
            proof {
                assert(types@.push(decl).map_values(|t: TypeDecl| t.view())
                    =~= types@.map_values(|t: TypeDecl| t.view()).push(decl.view()));
            }
            types.push(decl);
        }
        if !self.at_kind(&TokenKind::KeywordMatch) {
            return Err(DslError::at(String::from_str("Expected a match block"), self.current_span()));
        }
        let match_input = match self.parse_match_block() {
            Ok(block) => block,
            Err(e) => return Err(e),
        };
        if !self.at_kind(&TokenKind::Eof) {
            return Err(DslError::at(String::from_str("Only one match block is supported"), self.current_span()));
        }
        Ok(Program { types, match_input })
    }
}

/// Whether `value` is one of `values`.
fn contains_string(values: &Vec<String>, value: &String) -> (found: bool)
    ensures
        found == strings_view(values@).contains(value@),
{
    let mut i: usize = 0;
    while i < values.len()
        invariant
            i <= values@.len(),
            forall|j: int| 0 <= j < i ==> values@[j]@ != value@,
        decreases values@.len() - i,
    {
        if values[i] == *value {
            proof {
                assert(strings_view(values@)[i as int] == value@);
            }
            return true;
        }
        i = i + 1;
    }
    proof {
        if strings_view(values@).contains(value@) {
            let j = choose|j: int| 0 <= j < strings_view(values@).len() && strings_view(values@)[j] == value@;
            assert(values@[j]@ == value@);
        }
    }
    false
}

} // verus!
