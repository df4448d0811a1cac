//! Syntactic front end of a small indentation-sensitive expression language.
//!
//! Source text is scanned into tokens by [`syntax::lexer`]. A token stream
//! whose blocks are given by indentation is turned by
//! [`syntax::insensitive_layout`] into one with explicit braces and
//! semicolons, and then read by [`syntax::parser`] into a tree in which
//! operator precedence, associativity and fixity are resolved by
//! [`syntax::shunting_yard`].
//!
//! Every function states what it returns as a mathematical function of its
//! input. What holds of every run of the layout pass is proved in
//! [`syntax::layout_laws`], and what holds of every tree that the reducer
//! builds in [`syntax::shunting_yard_laws`].

pub mod errors;
pub mod syntax;
pub mod utils;
