//! A Yacc-style grammar toolkit.
//!
//! A grammar comes in by name ([`ast`]), is built into a validated model
//! whose symbols are dense indices ([`grammar`], [`resolve`]), and is then
//! analysed: FIRST sets and nullability ([`firsts`]), FOLLOW sets
//! ([`follows`]), operator precedence ([`precedence`]), reachability and
//! productivity ([`reach`]), and a validation report ([`validate`]). What
//! the sets mean in terms of derivations is proved in [`derivation`]. A
//! generator of random sentences ([`generator`], [`costs`]) serves to test
//! parsers, and [`lexer`] and [`builder`] keep the tokens of a lexer in
//! step with those of the grammar.

pub mod ast;
pub mod builder;
pub mod costs;
pub mod derivation;
pub mod firsts;
pub mod follows;
pub mod generator;
pub mod grammar;
pub mod index_set;
pub mod lexer;
pub mod marks;
pub mod precedence;
pub mod reach;
pub mod resolve;
pub mod symbol;
pub mod text;
pub mod validate;
