//! A small language of algebraic data types and one match block, checked
//! with the space engine.

pub mod analysis;
pub mod grammar;
pub mod lexer;
pub mod lower;
pub mod model;
pub mod parser;
pub mod resolve;
pub mod syntax;
pub mod types;

pub use analysis::{analyze_source, ArmResponse, SuccessResponse, TypeResponse, WarningResponse};
pub use parser::parse;
pub use syntax::{
    ConstructorDecl, DslError, MatchBlock, Pattern, Program, Span, Token, TokenKind, TypeDecl, TypeExpr,
};
pub use types::{RuntimeExtractor, RuntimeType};
