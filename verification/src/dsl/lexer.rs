use vstd::prelude::*;
use vstd::string::*;

use crate::dsl::syntax::{char_string, error_at, quote, quoted, DslError, ErrorView, Span, Token, TokenKind, TokenKindView, TokenView, tokens_view};

verus! {

/// ASCII whitespace: space, tab, line feed, form feed and carriage return.
pub open spec fn is_space(byte: u8) -> bool {
    byte == 0x20 || byte == 0x09 || byte == 0x0A || byte == 0x0C || byte == 0x0D
}

/// An ASCII letter.
pub open spec fn is_letter(byte: u8) -> bool {
    (0x41 <= byte <= 0x5A) || (0x61 <= byte <= 0x7A)
}

/// A byte that may start an identifier: an ASCII letter.
pub open spec fn is_ident_start(byte: u8) -> bool {
    is_letter(byte)
}

/// A byte that may continue an identifier: an ASCII letter or digit, or `_`.
pub open spec fn is_ident_continue(byte: u8) -> bool {
    is_letter(byte) || (0x30 <= byte <= 0x39) || byte == 0x5F
}

/// The token that a single punctuation byte stands for.
pub open spec fn punctuation(byte: u8) -> Option<TokenKindView> {
    if byte == 0x7C {
        Some(TokenKindView::Pipe)
    } else if byte == 0x3D {
        Some(TokenKindView::Equal)
    } else if byte == 0x3A {
        Some(TokenKindView::Colon)
    } else if byte == 0x2C {
        Some(TokenKindView::Comma)
    } else if byte == 0x28 {
        Some(TokenKindView::LParen)
    } else if byte == 0x29 {
        Some(TokenKindView::RParen)
    } else if byte == 0x3C {
        Some(TokenKindView::Less)
    } else if byte == 0x3E {
        Some(TokenKindView::Greater)
    } else if byte == 0x5F {
        Some(TokenKindView::Underscore)
    } else {
        None
    }
}

/// The end of the identifier characters that start at `index`.
pub open spec fn ident_end(bytes: Seq<u8>, index: int) -> int
    decreases bytes.len() - index,
{
    if 0 <= index < bytes.len() && is_ident_continue(bytes[index]) {
        ident_end(bytes, index + 1)
    } else {
        index
    }
}

/// The characters of the bytes from `start` to `end`.
pub open spec fn text_of(bytes: Seq<u8>, start: int, end: int) -> Seq<char> {
    bytes.subrange(start, end).map_values(|b: u8| b as char)
}

/// A keyword, or else an identifier with that text.
pub open spec fn word_kind(text: Seq<char>) -> TokenKindView {
    if text == "type"@ {
        TokenKindView::KeywordType
    } else if text == "match"@ {
        TokenKindView::KeywordMatch
    } else {
        TokenKindView::Ident(text)
    }
}

/// `token` in front of `rest`, or the error of `rest`.
pub open spec fn prepend(token: TokenView, rest: Result<Seq<TokenView>, ErrorView>) -> Result<
    Seq<TokenView>,
    ErrorView,
> {
    match rest {
        Ok(tokens) => Ok(seq![token] + tokens),
        Err(error) => Err(error),
    }
}

/// The error for a byte that starts no token.
pub open spec fn unexpected_byte(byte: u8, index: int) -> ErrorView {
    error_at(
        quoted("Unexpected character `"@, seq![byte as char], "`"@),
        Span { start: index as usize, end: (index + 1) as usize },
    )
}

/// The tokens of `bytes` from `index` on: whitespace is skipped, each
/// punctuation byte is a token, an identifier runs as far as identifier
/// characters go, and the list ends with an end-of-input token. The first byte
/// that starts no token is an error.
pub open spec fn lex_from(bytes: Seq<u8>, index: int) -> Result<Seq<TokenView>, ErrorView>
    decreases bytes.len() - index,
{
    if index < 0 || index >= bytes.len() {
        Ok(
            seq![
                TokenView {
                    kind: TokenKindView::Eof,
                    span: Span { start: bytes.len() as usize, end: bytes.len() as usize },
                },
            ],
        )
    } else {
        let byte = bytes[index];
        if is_space(byte) {
            lex_from(bytes, index + 1)
        } else if punctuation(byte) is Some {
            prepend(
                TokenView {
                    kind: punctuation(byte)->0,
                    span: Span { start: index as usize, end: (index + 1) as usize },
                },
                lex_from(bytes, index + 1),
            )
        } else if is_ident_start(byte) {
            let end = ident_end(bytes, index + 1);
            proof {
                lemma_ident_end(bytes, index + 1);
            }
            prepend(
                TokenView {
                    kind: word_kind(text_of(bytes, index, end)),
                    span: Span { start: index as usize, end: end as usize },
                },
                lex_from(bytes, end),
            )
        } else {
            Err(unexpected_byte(byte, index))
        }
    }
}

/// The tokens of a source text.
pub open spec fn lex_spec(source: &str) -> Result<Seq<TokenView>, ErrorView> {
    lex_from(source.spec_bytes(), 0)
}

/// Identifier characters run from `index` to `ident_end`, and no further.
pub proof fn lemma_ident_end(bytes: Seq<u8>, index: int)
    requires
        0 <= index <= bytes.len(),
    ensures
        index <= ident_end(bytes, index) <= bytes.len(),
        forall|k: int| index <= k < ident_end(bytes, index) ==> is_ident_continue(#[trigger] bytes[k]),
        ident_end(bytes, index) < bytes.len() ==> !is_ident_continue(bytes[ident_end(bytes, index)]),
    decreases bytes.len() - index,
{
    if index < bytes.len() && is_ident_continue(bytes[index]) {
        lemma_ident_end(bytes, index + 1);
    }
}

/// A word byte: an ASCII letter (`A`-`Z`, `a`-`z`), an ASCII digit (`0`-`9`)
/// or an underscore.
pub open spec fn word_byte(byte: u8) -> bool {
    (65 <= byte <= 90) || (97 <= byte <= 122) || (48 <= byte <= 57) || byte == 95
}

proof fn lemma_word_run_end(bytes: Seq<u8>, index: int, end: int)
    requires
        0 <= index <= end <= bytes.len(),
        forall|k: int| index <= k < end ==> word_byte(#[trigger] bytes[k]),
        end == bytes.len() || !word_byte(bytes[end]),
    ensures
        ident_end(bytes, index) == end,
    decreases end - index,
{
    if index < end {
        assert(word_byte(bytes[index]));
        lemma_word_run_end(bytes, index + 1, end);
    }
}

/// A word is read as one token: from a letter, through every following
/// letter, digit and underscore up to the first byte that is none of these
/// (or the end), the reading gives a single token spanning exactly those
/// bytes, a keyword for `type` and `match` and otherwise an identifier with
/// their text, followed by what the reading of the rest gives.
pub proof fn lemma_word_is_one_token(bytes: Seq<u8>, start: int, end: int)
    requires
        0 <= start < end <= bytes.len(),
        (65 <= bytes[start] <= 90) || (97 <= bytes[start] <= 122),
        forall|k: int| start < k < end ==> word_byte(#[trigger] bytes[k]),
        end == bytes.len() || !word_byte(bytes[end]),
    ensures
        ({
            let text = bytes.subrange(start, end).map_values(|b: u8| b as char);
            let kind = if text == "type"@ {
                TokenKindView::KeywordType
            } else if text == "match"@ {
                TokenKindView::KeywordMatch
            } else {
                TokenKindView::Ident(text)
            };
            lex_from(bytes, start) == match lex_from(bytes, end) {
                Ok(rest) => Ok(seq![TokenView { kind: kind, span: Span { start: start as usize, end: end as usize } }] + rest),
                Err(error) => Err(error),
            }
        }),
{
    lemma_word_run_end(bytes, start + 1, end);
    assert(!is_space(bytes[start]));
    assert(punctuation(bytes[start]) is None);
}

/// A successful reading ends with the end-of-input token.
pub proof fn lemma_lex_ends_with_eof(bytes: Seq<u8>, index: int)
    ensures
        lex_from(bytes, index) matches Ok(tokens) ==> tokens.len() >= 1 && tokens[tokens.len() - 1].kind is Eof,
    decreases bytes.len() - index,
{
    if 0 <= index < bytes.len() {
        let byte = bytes[index];
        if is_space(byte) || punctuation(byte) is Some {
            lemma_lex_ends_with_eof(bytes, index + 1);
        } else if is_ident_start(byte) {
            lemma_ident_end(bytes, index + 1);
            lemma_lex_ends_with_eof(bytes, ident_end(bytes, index + 1));
        }
    }
}

fn is_space_byte(byte: u8) -> (space: bool)
    ensures
        space == is_space(byte),
{
    byte == 0x20 || byte == 0x09 || byte == 0x0A || byte == 0x0C || byte == 0x0D
}

fn is_ident_start_byte(byte: u8) -> (start: bool)
    ensures
        start == is_ident_start(byte),
{
    (0x41 <= byte && byte <= 0x5A) || (0x61 <= byte && byte <= 0x7A)
}

fn is_ident_continue_byte(byte: u8) -> (continues: bool)
    ensures
        continues == is_ident_continue(byte),
{
    (0x41 <= byte && byte <= 0x5A) || (0x61 <= byte && byte <= 0x7A) || (0x30 <= byte && byte <= 0x39)
        || byte == 0x5F
}

fn punctuation_kind(byte: u8) -> (kind: Option<TokenKind>)
    ensures
        match kind {
            Some(k) => punctuation(byte) == Some(k.view()),
            None => punctuation(byte) is None,
        },
{
    if byte == 0x7C {
        Some(TokenKind::Pipe)
    } else if byte == 0x3D {
        Some(TokenKind::Equal)
    } else if byte == 0x3A {
        Some(TokenKind::Colon)
    } else if byte == 0x2C {
        Some(TokenKind::Comma)
    } else if byte == 0x28 {
        Some(TokenKind::LParen)
    } else if byte == 0x29 {
        Some(TokenKind::RParen)
    } else if byte == 0x3C {
        Some(TokenKind::Less)
    } else if byte == 0x3E {
        Some(TokenKind::Greater)
    } else if byte == 0x5F {
        Some(TokenKind::Underscore)
    } else {
        None
    }
}

/// The text of the bytes from `start` to `end`.
fn text_from_bytes(bytes: &[u8], start: usize, end: usize) -> (text: String)
    requires
        start <= end <= bytes@.len(),
    ensures
        text@ == text_of(bytes@, start as int, end as int),
{
    let mut text = String::new();
    let mut k: usize = start;
    while k < end
        invariant
            start <= k <= end <= bytes@.len(),
            text@ == text_of(bytes@, start as int, k as int),
        decreases end - k,
    {
        let piece = char_string(bytes[k] as char);
        text = text.concat(piece.as_str());
        proof {
            assert(text_of(bytes@, start as int, k + 1) =~= text_of(bytes@, start as int, k as int) + seq![
                bytes@[k as int] as char]);
        }
        k = k + 1;
    }
    text
}

fn word_token(text: String) -> (kind: TokenKind)
    ensures
        kind.view() == word_kind(text@),
{
    if text == String::from_str("type") {
        TokenKind::KeywordType
    } else if text == String::from_str("match") {
        TokenKind::KeywordMatch
    } else {
        TokenKind::Ident(text)
    }
}

/// `prefix` in front of the outcome `rest`.
pub open spec fn prefixed(prefix: Seq<TokenView>, rest: Result<Seq<TokenView>, ErrorView>) -> Result<
    Seq<TokenView>,
    ErrorView,
> {
    match rest {
        Ok(tokens) => Ok(prefix + tokens),
        Err(error) => Err(error),
    }
}

/// Splits a source text into tokens.
pub fn lex(source: &str) -> (tokens: Result<Vec<Token>, DslError>)
    ensures
        match (tokens, lex_spec(source)) {
            (Ok(t), Ok(v)) => tokens_view(t@) == v,
            (Err(e), Err(v)) => e.view() == v,
            _ => false,
        },
{
    let bytes = source.as_bytes();
    let ghost bs = bytes@;
    let mut tokens: Vec<Token> = Vec::new();
    let mut index: usize = 0;
    while index < bytes.len()
        invariant
            bs == bytes@,
            bs == source.spec_bytes(),
            index <= bs.len(),
            lex_from(bs, 0) == prefixed(tokens_view(tokens@), lex_from(bs, index as int)),
        decreases bs.len() - index,
    {
        let byte = bytes[index];
        if is_space_byte(byte) {
            index = index + 1;
            continue;
        }
        let start = index;
        let ghost before = tokens_view(tokens@);
        match punctuation_kind(byte) {
            Some(kind) => {
                index = index + 1;
                let token = Token { kind, span: Span { start, end: index } };
                proof {
                    assert(tokens_view(tokens@.push(token)) =~= before.push(token.view()));
                }
                tokens.push(token);
                proof {
                    assert(before + (seq![token.view()] + Seq::<TokenView>::empty()) =~= before.push(token.view()) + Seq::<TokenView>::empty());
                    match lex_from(bs, index as int) {
                        Ok(rest) => {
                            assert(before + (seq![token.view()] + rest) =~= before.push(token.view()) + rest);
                        },
                        Err(_) => {},
                    }
                }
            },
            None => {
                if is_ident_start_byte(byte) {
                    index = index + 1;
                    proof {
                        lemma_ident_end(bs, index as int);
                    }
                    while index < bytes.len() && is_ident_continue_byte(bytes[index])
                        invariant
                            bs == bytes@,
                            start < index <= bs.len(),
                            ident_end(bs, start + 1) == ident_end(bs, index as int),
                        decreases bs.len() - index,
                    {
                        index = index + 1;
                    }
                    proof {
                        lemma_ident_end(bs, index as int);
                    }
                    let text = text_from_bytes(bytes, start, index);
                    let kind = word_token(text);
                    let token = Token { kind, span: Span { start, end: index } };
                    proof {
                        assert(tokens_view(tokens@.push(token)) =~= before.push(token.view()));
                    }
                    tokens.push(token);
                    proof {
                        match lex_from(bs, index as int) {
                            Ok(rest) => {
                                assert(before + (seq![token.view()] + rest) =~= before.push(token.view()) + rest);
                            },
                            Err(_) => {},
                        }
                    }
                } else {
                    let message = quote("Unexpected character `", char_string(byte as char).as_str(), "`");
                    return Err(DslError::at(message, Span { start, end: start + 1 }));
                }
            },
        }
    }
    let end = bytes.len();
    let eof = Token { kind: TokenKind::Eof, span: Span { start: end, end } };
    proof {
        assert(tokens_view(tokens@.push(eof)) =~= tokens_view(tokens@) + seq![eof.view()]);
    }
    tokens.push(eof);
    Ok(tokens)
}

} // verus!
