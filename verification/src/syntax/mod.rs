pub mod ast;
pub mod grammar;
pub mod insensitive_layout;
pub mod layout_laws;
pub mod lexer;
pub mod optable;
pub mod parser;
pub mod shunting_yard;
pub mod shunting_yard_laws;
pub mod text;
pub mod tokens;
