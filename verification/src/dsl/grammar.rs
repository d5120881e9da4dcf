//! The grammar of the language, read from a list of tokens.
//!
//! Each function reads from position `pos` and gives what it read together
//! with the position after it, or the error at the first token that does not
//! fit. A list of tokens is read to its end-of-input token; a position outside
//! the list, or a reading that does not move on, cannot occur in a list that
//! ends with that token, and gives an error with an empty message.

use vstd::prelude::*;

use crate::dsl::syntax::{
    error_at, quoted, ConstructorDeclView, ErrorView, MatchBlockView, PatternView, ProgramView, Span,
    TokenKindView, TokenView, TypeDeclView, TypeExprView,
};

verus! {

/// A number for each kind of token, the same for identifiers of any text.
pub open spec fn kind_tag(kind: TokenKindView) -> int {
    match kind {
        TokenKindView::Ident(_) => 0,
        TokenKindView::KeywordType => 1,
        TokenKindView::KeywordMatch => 2,
        TokenKindView::Pipe => 3,
        TokenKindView::Equal => 4,
        TokenKindView::Colon => 5,
        TokenKindView::Comma => 6,
        TokenKindView::LParen => 7,
        TokenKindView::RParen => 8,
        TokenKindView::Less => 9,
        TokenKindView::Greater => 10,
        TokenKindView::Underscore => 11,
        TokenKindView::Eof => 12,
    }
}

/// The token at `pos` is of the kind of `kind`.
pub open spec fn at(toks: Seq<TokenView>, pos: int, kind: TokenKindView) -> bool {
    kind_tag(toks[pos].kind) == kind_tag(kind)
}

pub open spec fn in_range(toks: Seq<TokenView>, pos: int) -> bool {
    0 <= pos < toks.len()
}

/// The error of a reading that cannot occur.
pub open spec fn stuck() -> ErrorView {
    error_at(Seq::empty(), Span { start: 0, end: 0 })
}

/// A token of the kind of `kind`, or else the error `message` at the token found.
pub open spec fn expect(toks: Seq<TokenView>, pos: int, kind: TokenKindView, message: Seq<char>) -> Result<
    (Span, int),
    ErrorView,
> {
    if at(toks, pos, kind) {
        Ok((toks[pos].span, pos + 1))
    } else {
        Err(error_at(message, toks[pos].span))
    }
}

/// An identifier, or else the error `message` at the token found.
pub open spec fn expect_ident(toks: Seq<TokenView>, pos: int, message: Seq<char>) -> Result<
    (Seq<char>, Span, int),
    ErrorView,
> {
    match toks[pos].kind {
        TokenKindView::Ident(name) => Ok((name, toks[pos].span, pos + 1)),
        _ => Err(error_at(message, toks[pos].span)),
    }
}

/// `Name` or `Name<argument, ...>`, with at least one argument between the
/// brackets.
pub open spec fn type_expr_at(toks: Seq<TokenView>, pos: int) -> Result<(TypeExprView, int), ErrorView>
    decreases toks.len() - pos, 0int,
{
    if !in_range(toks, pos) {
        Err(stuck())
    } else {
        match expect_ident(toks, pos, "Expected a type expression"@) {
            Err(e) => Err(e),
            Ok((name, name_span, p1)) => {
                if in_range(toks, p1) && at(toks, p1, TokenKindView::Less) {
                    let p2 = p1 + 1;
                    if !in_range(toks, p2) {
                        Err(stuck())
                    } else if at(toks, p2, TokenKindView::Greater) {
                        Err(error_at("Expected a type argument"@, toks[p2].span))
                    } else {
                        match type_args_at(toks, p2, Seq::empty()) {
                            Err(e) => Err(e),
                            Ok((args, end, p3)) => Ok(
                                (TypeExprView::Named(name, args, Span { start: name_span.start, end }), p3),
                            ),
                        }
                    }
                } else {
                    Ok((TypeExprView::Named(name, Seq::empty(), name_span), p1))
                }
            },
        }
    }
}

/// Type arguments after `acc`, separated by `,` and closed by `>`: the
/// arguments and the end of the `>`.
pub open spec fn type_args_at(toks: Seq<TokenView>, pos: int, acc: Seq<TypeExprView>) -> Result<
    (Seq<TypeExprView>, usize, int),
    ErrorView,
>
    decreases toks.len() - pos, 1int,
{
    if !in_range(toks, pos) {
        Err(stuck())
    } else {
        match type_expr_at(toks, pos) {
            Err(e) => Err(e),
            Ok((arg, p1)) => {
                if p1 <= pos || !in_range(toks, p1) {
                    Err(stuck())
                } else if at(toks, p1, TokenKindView::Comma) {
                    type_args_at(toks, p1 + 1, acc.push(arg))
                } else {
                    match expect(toks, p1, TokenKindView::Greater, "Expected `>`"@) {
                        Err(e) => Err(e),
                        Ok((span, p2)) => Ok((acc.push(arg), span.end, p2)),
                    }
                }
            },
        }
    }
}

/// `_`, or a constructor name with argument patterns between `(` and `)`.
pub open spec fn primary_pattern_at(toks: Seq<TokenView>, pos: int) -> Result<(PatternView, int), ErrorView>
    decreases toks.len() - pos, 0int,
{
    if !in_range(toks, pos) {
        Err(stuck())
    } else if at(toks, pos, TokenKindView::Underscore) {
        Ok((PatternView::Wildcard { span: toks[pos].span }, pos + 1))
    } else {
        match expect_ident(toks, pos, "Expected a pattern"@) {
            Err(e) => Err(e),
            Ok((name, name_span, p1)) => {
                if in_range(toks, p1) && at(toks, p1, TokenKindView::LParen) {
                    let p2 = p1 + 1;
                    if !in_range(toks, p2) {
                        Err(stuck())
                    } else if at(toks, p2, TokenKindView::RParen) {
                        Ok(
                            (
                                PatternView::Constructor {
                                    name,
                                    args: Seq::empty(),
                                    span: Span { start: name_span.start, end: toks[p2].span.end },
                                },
                                p2 + 1,
                            ),
                        )
                    } else {
                        match pattern_args_at(toks, p2, Seq::empty()) {
                            Err(e) => Err(e),
                            Ok((args, end, p3)) => Ok(
                                (
                                    PatternView::Constructor {
                                        name,
                                        args,
                                        span: Span { start: name_span.start, end },
                                    },
                                    p3,
                                ),
                            ),
                        }
                    }
                } else {
                    Ok((PatternView::Constructor { name, args: Seq::empty(), span: name_span }, p1))
                }
            },
        }
    }
}

/// Argument patterns after `acc`, separated by `,` and closed by `)`: the
/// arguments and the end of the `)`.
pub open spec fn pattern_args_at(toks: Seq<TokenView>, pos: int, acc: Seq<PatternView>) -> Result<
    (Seq<PatternView>, usize, int),
    ErrorView,
>
    decreases toks.len() - pos, 2int,
{
    if !in_range(toks, pos) {
        Err(stuck())
    } else {
        match pattern_at(toks, pos) {
            Err(e) => Err(e),
            Ok((arg, p1)) => {
                if p1 <= pos || !in_range(toks, p1) {
                    Err(stuck())
                } else if at(toks, p1, TokenKindView::Comma) {
                    pattern_args_at(toks, p1 + 1, acc.push(arg))
                } else {
                    match expect(toks, p1, TokenKindView::RParen, "Expected `)`"@) {
                        Err(e) => Err(e),
                        Ok((span, p2)) => Ok((acc.push(arg), span.end, p2)),
                    }
                }
            },
        }
    }
}

/// Further alternatives after `acc`, each introduced by `|`.
pub open spec fn alternatives_at(toks: Seq<TokenView>, pos: int, acc: Seq<PatternView>) -> Result<
    (Seq<PatternView>, int),
    ErrorView,
>
    decreases toks.len() - pos, 0int,
{
    if !in_range(toks, pos) {
        Err(stuck())
    } else if at(toks, pos, TokenKindView::Pipe) {
        let p1 = pos + 1;
        if !in_range(toks, p1) {
            Err(stuck())
        } else {
            match primary_pattern_at(toks, p1) {
                Err(e) => Err(e),
                Ok((alternative, p2)) => {
                    if p2 <= p1 || !in_range(toks, p2) {
                        Err(stuck())
                    } else {
                        alternatives_at(toks, p2, acc.push(alternative))
                    }
                },
            }
        }
    } else {
        Ok((acc, pos))
    }
}

/// One alternative, or several separated by `|`; several make an or-pattern
/// from the start of the first to the end of the last.
pub open spec fn pattern_at(toks: Seq<TokenView>, pos: int) -> Result<(PatternView, int), ErrorView>
    decreases toks.len() - pos, 1int,
{
    if !in_range(toks, pos) {
        Err(stuck())
    } else {
        match primary_pattern_at(toks, pos) {
            Err(e) => Err(e),
            Ok((first, p1)) => {
                if p1 <= pos || !in_range(toks, p1) {
                    Err(stuck())
                } else {
                    match alternatives_at(toks, p1, seq![first]) {
                        Err(e) => Err(e),
                        Ok((alternatives, p2)) => {
                            if alternatives.len() == 1 {
                                Ok((alternatives[0], p2))
                            } else {
                                Ok(
                                    (
                                        PatternView::Or {
                                            alternatives,
                                            span: Span {
                                                start: alternatives[0].span().start,
                                                end: alternatives[alternatives.len() - 1].span().end,
                                            },
                                        },
                                        p2,
                                    ),
                                )
                            }
                        },
                    }
                }
            },
        }
    }
}

/// Field types after `acc`, separated by `,` and closed by `)`: the fields and
/// the end of the `)`.
pub open spec fn fields_at(toks: Seq<TokenView>, pos: int, acc: Seq<TypeExprView>) -> Result<
    (Seq<TypeExprView>, usize, int),
    ErrorView,
>
    decreases toks.len() - pos,
{
    if !in_range(toks, pos) {
        Err(stuck())
    } else {
        match type_expr_at(toks, pos) {
            Err(e) => Err(e),
            Ok((field, p1)) => {
                if p1 <= pos || !in_range(toks, p1) {
                    Err(stuck())
                } else if at(toks, p1, TokenKindView::Comma) {
                    fields_at(toks, p1 + 1, acc.push(field))
                } else {
                    match expect(toks, p1, TokenKindView::RParen, "Expected `)`"@) {
                        Err(e) => Err(e),
                        Ok((span, p2)) => Ok((acc.push(field), span.end, p2)),
                    }
                }
            },
        }
    }
}

/// A constructor name, with field types between `(` and `)`.
pub open spec fn constructor_decl_at(toks: Seq<TokenView>, pos: int) -> Result<
    (ConstructorDeclView, int),
    ErrorView,
> {
    match expect_ident(toks, pos, "Expected a constructor name"@) {
        Err(e) => Err(e),
        Ok((name, name_span, p1)) => {
            if in_range(toks, p1) && at(toks, p1, TokenKindView::LParen) {
                let p2 = p1 + 1;
                if !in_range(toks, p2) {
                    Err(stuck())
                } else if at(toks, p2, TokenKindView::RParen) {
                    Ok(
                        (
                            ConstructorDeclView {
                                name,
                                fields: Seq::empty(),
                                span: Span { start: name_span.start, end: toks[p2].span.end },
                            },
                            p2 + 1,
                        ),
                    )
                } else {
                    match fields_at(toks, p2, Seq::empty()) {
                        Err(e) => Err(e),
                        Ok((fields, end, p3)) => Ok(
                            (ConstructorDeclView { name, fields, span: Span { start: name_span.start, end } }, p3),
                        ),
                    }
                }
            } else {
                Ok((ConstructorDeclView { name, fields: Seq::empty(), span: name_span }, p1))
            }
        },
    }
}

/// Type parameters after `acc`, separated by `,` and closed by `>`; a name
/// given twice is an error at its second occurrence.
pub open spec fn params_at(toks: Seq<TokenView>, pos: int, acc: Seq<Seq<char>>) -> Result<
    (Seq<Seq<char>>, int),
    ErrorView,
>
    decreases toks.len() - pos,
{
    if !in_range(toks, pos) {
        Err(stuck())
    } else {
        match expect_ident(toks, pos, "Expected a type parameter"@) {
            Err(e) => Err(e),
            Ok((param, span, p1)) => {
                if acc.contains(param) {
                    Err(error_at(quoted("Duplicate type parameter `"@, param, "`"@), span))
                } else if !in_range(toks, p1) {
                    Err(stuck())
                } else if at(toks, p1, TokenKindView::Comma) {
                    params_at(toks, p1 + 1, acc.push(param))
                } else {
                    match expect(toks, p1, TokenKindView::Greater, "Expected `>`"@) {
                        Err(e) => Err(e),
                        Ok((_, p2)) => Ok((acc.push(param), p2)),
                    }
                }
            },
        }
    }
}

/// Constructors after `acc`, each introduced by `|`.
pub open spec fn constructors_at(toks: Seq<TokenView>, pos: int, acc: Seq<ConstructorDeclView>) -> Result<
    (Seq<ConstructorDeclView>, int),
    ErrorView,
>
    decreases toks.len() - pos,
{
    if !in_range(toks, pos) {
        Err(stuck())
    } else if at(toks, pos, TokenKindView::Pipe) {
        let p1 = pos + 1;
        if !in_range(toks, p1) {
            Err(stuck())
        } else {
            match constructor_decl_at(toks, p1) {
                Err(e) => Err(e),
                Ok((constructor, p2)) => {
                    if p2 <= p1 || !in_range(toks, p2) {
                        Err(stuck())
                    } else {
                        constructors_at(toks, p2, acc.push(constructor))
                    }
                },
            }
        }
    } else {
        Ok((acc, pos))
    }
}

/// `type Name<params> = | Constructor ...`, with at least one constructor;
/// it spans from `type` to the end of its last constructor.
pub open spec fn type_decl_at(toks: Seq<TokenView>, pos: int) -> Result<(TypeDeclView, int), ErrorView> {
    match expect(toks, pos, TokenKindView::KeywordType, "Expected `type`"@) {
        Err(e) => Err(e),
        Ok((type_span, p1)) => match expect_ident(toks, p1, "Expected a type name"@) {
            Err(e) => Err(e),
            Ok((name, _, p2)) => {
                let params = if in_range(toks, p2) && at(toks, p2, TokenKindView::Less) {
                    params_at(toks, p2 + 1, Seq::empty())
                } else {
                    Ok((Seq::empty(), p2))
                };
                match params {
                    Err(e) => Err(e),
                    Ok((params, p3)) => match expect(toks, p3, TokenKindView::Equal, "Expected `=`"@) {
                        Err(e) => Err(e),
                        Ok((_, p4)) => match constructors_at(toks, p4, Seq::empty()) {
                            Err(e) => Err(e),
                            Ok((constructors, p5)) => {
                                if constructors.len() == 0 {
                                    Err(
                                        error_at(
                                            quoted("Type `"@, name, "` must declare at least one constructor"@),
                                            toks[p5].span,
                                        ),
                                    )
                                } else {
                                    Ok(
                                        (
                                            TypeDeclView {
                                                name,
                                                params,
                                                constructors,
                                                span: Span {
                                                    start: type_span.start,
                                                    end: constructors[constructors.len() - 1].span.end,
                                                },
                                            },
                                            p5,
                                        ),
                                    )
                                }
                            },
                        },
                    },
                }
            },
        },
    }
}

/// Arm patterns after `acc`, up to the end of input; another match block or a
/// type declaration there is an error.
pub open spec fn arms_at(toks: Seq<TokenView>, pos: int, acc: Seq<PatternView>) -> Result<
    (Seq<PatternView>, int),
    ErrorView,
>
    decreases toks.len() - pos,
{
    if !in_range(toks, pos) {
        Err(stuck())
    } else if at(toks, pos, TokenKindView::Eof) {
        Ok((acc, pos))
    } else if at(toks, pos, TokenKindView::KeywordMatch) {
        Err(error_at("Only one match block is supported"@, toks[pos].span))
    } else if at(toks, pos, TokenKindView::KeywordType) {
        Err(error_at("Type declarations must appear before the match block"@, toks[pos].span))
    } else {
        match pattern_at(toks, pos) {
            Err(e) => Err(e),
            Ok((arm, p1)) => {
                if p1 <= pos || !in_range(toks, p1) {
                    Err(stuck())
                } else {
                    arms_at(toks, p1, acc.push(arm))
                }
            },
        }
    }
}

/// `match Type:` followed by the arms.
pub open spec fn match_block_at(toks: Seq<TokenView>, pos: int) -> Result<(MatchBlockView, int), ErrorView> {
    match expect(toks, pos, TokenKindView::KeywordMatch, "Expected `match`"@) {
        Err(e) => Err(e),
        Ok((_, p1)) => match type_expr_at(toks, p1) {
            Err(e) => Err(e),
            Ok((scrutinee, p2)) => match expect(toks, p2, TokenKindView::Colon, "Expected `:`"@) {
                Err(e) => Err(e),
                Ok((_, p3)) => match arms_at(toks, p3, Seq::empty()) {
                    Err(e) => Err(e),
                    Ok((arms, p4)) => Ok((MatchBlockView { scrutinee, arms }, p4)),
                },
            },
        },
    }
}

/// Type declarations after `acc`, as long as `type` comes next.
pub open spec fn type_decls_at(toks: Seq<TokenView>, pos: int, acc: Seq<TypeDeclView>) -> Result<
    (Seq<TypeDeclView>, int),
    ErrorView,
>
    decreases toks.len() - pos,
{
    if !in_range(toks, pos) {
        Err(stuck())
    } else if at(toks, pos, TokenKindView::KeywordType) {
        match type_decl_at(toks, pos) {
            Err(e) => Err(e),
            Ok((decl, p1)) => {
                if p1 <= pos || !in_range(toks, p1) {
                    Err(stuck())
                } else {
                    type_decls_at(toks, p1, acc.push(decl))
                }
            },
        }
    } else {
        Ok((acc, pos))
    }
}

/// Type declarations, then exactly one match block, then the end of input.
pub open spec fn program_of(toks: Seq<TokenView>) -> Result<ProgramView, ErrorView> {
    match type_decls_at(toks, 0, Seq::empty()) {
        Err(e) => Err(e),
        Ok((types, p1)) => {
            if !at(toks, p1, TokenKindView::KeywordMatch) {
                Err(error_at("Expected a match block"@, toks[p1].span))
            } else {
                match match_block_at(toks, p1) {
                    Err(e) => Err(e),
                    Ok((match_input, p2)) => {
                        if !at(toks, p2, TokenKindView::Eof) {
                            Err(error_at("Only one match block is supported"@, toks[p2].span))
                        } else {
                            Ok(ProgramView { types, match_input })
                        }
                    },
                }
            }
        },
    }
}

} // verus!
